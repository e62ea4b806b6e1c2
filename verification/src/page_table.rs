//! The second-stage page table of one owner, as the rest of the library sees
//! it: what a platform's table has to do, stated over a mathematical model of
//! its translations.

use crate::page::{
    is_aligned, AlignedPageAddr4k, Page, Page4k, PageAddr, PageOwnerId, PageSize1G, PageSize2M,
    PageSize4k, UnmappedPage, PAGE_SIZE_4K,
};
use crate::page_vec::PageVec;
use crate::sequential_pages::{SeqPageIter, SequentialPages};
use vstd::prelude::*;

verus! {

/// The size of the frame of an entry.
pub enum MappedSize {
    Size4k,
    Size2M,
    Size1G,
}

/// One entry of a page table: the frame that a guest page is backed by, the
/// size of that frame, and whether the entry translates. An entry that was
/// invalidated still names its frame.
pub struct Mapping {
    pub frame: u64,
    pub size: MappedSize,
    pub valid: bool,
}

/// The handle of the frame of an entry, as it comes out of a table.
pub open spec fn page_of(m: Mapping) -> UnmappedPage {
    match m.size {
        MappedSize::Size4k => UnmappedPage::Page4k(
            Page::<PageSize4k>::at(PageAddr::<PageSize4k>::from_bits(m.frame)),
        ),
        MappedSize::Size2M => UnmappedPage::Page2M(
            Page::<PageSize2M>::at(PageAddr::<PageSize2M>::from_bits(m.frame)),
        ),
        MappedSize::Size1G => UnmappedPage::Page1G(
            Page::<PageSize1G>::at(PageAddr::<PageSize1G>::from_bits(m.frame)),
        ),
    }
}

/// The guest address of the `i`-th page of the range that starts at `base`.
pub open spec fn slot(base: u64, i: int) -> u64 {
    (base + i * PAGE_SIZE_4K) as u64
}

/// Whether the `count` pages from `base` on end at or below the top of the
/// 64-bit address space.
pub open spec fn range_fits(base: u64, count: u64) -> bool {
    base + count * PAGE_SIZE_4K <= u64::MAX + 1
}

/// Whether `gpa` is the address of one of the `count` pages from `base` on.
pub open spec fn in_range(base: u64, count: u64, gpa: u64) -> bool {
    &&& base <= gpa < base + count * PAGE_SIZE_4K
    &&& (gpa - base) % (PAGE_SIZE_4K as int) == 0
}

/// The frames of the entries that translate, among the first `count` pages
/// from `base` on, by ascending guest address.
pub open spec fn valid_pages(entries: Map<u64, Mapping>, base: u64, count: nat) -> Seq<
    UnmappedPage,
>
    decreases count,
{
    if count == 0 {
        Seq::empty()
    } else {
        let rest = valid_pages(entries, base, (count - 1) as nat);
        let gpa = slot(base, count - 1);
        if entries.contains_key(gpa) && entries[gpa].valid {
            rest.push(page_of(entries[gpa]))
        } else {
            rest
        }
    }
}

/// The frames of all the entries, translating or invalidated, among the
/// first `count` pages from `base` on, by ascending guest address.
pub open spec fn present_pages(entries: Map<u64, Mapping>, base: u64, count: nat) -> Seq<
    UnmappedPage,
>
    decreases count,
{
    if count == 0 {
        Seq::empty()
    } else {
        let rest = present_pages(entries, base, (count - 1) as nat);
        let gpa = slot(base, count - 1);
        if entries.contains_key(gpa) {
            rest.push(page_of(entries[gpa]))
        } else {
            rest
        }
    }
}

/// The entries after those of the `count` pages from `base` on have been
/// invalidated.
pub open spec fn invalidated(entries: Map<u64, Mapping>, base: u64, count: u64) -> Map<
    u64,
    Mapping,
> {
    Map::new(
        |gpa: u64| entries.contains_key(gpa),
        |gpa: u64|
            if in_range(base, count, gpa) {
                Mapping { frame: entries[gpa].frame, size: entries[gpa].size, valid: false }
            } else {
                entries[gpa]
            },
    )
}

/// The entries after those of the `count` pages from `base` on have been
/// taken out.
pub open spec fn unmapped(entries: Map<u64, Mapping>, base: u64, count: u64) -> Map<u64, Mapping> {
    Map::new(
        |gpa: u64| entries.contains_key(gpa) && !in_range(base, count, gpa),
        |gpa: u64| entries[gpa],
    )
}

/// What a guest sees of a table: for each guest page that translates, its
/// frame.
pub open spec fn translations(entries: Map<u64, Mapping>) -> Map<u64, u64> {
    Map::new(
        |gpa: u64| entries.contains_key(gpa) && entries[gpa].valid,
        |gpa: u64| entries[gpa].frame,
    )
}

/// The entry that maps a guest page to the 4 KiB frame at `frame`.
pub open spec fn mapping_to(frame: u64) -> Mapping {
    Mapping { frame, size: MappedSize::Size4k, valid: true }
}

/// The entries after each page among the first `count` from `base` on that
/// translates in `orig` has been mapped to the frame it has in `orig`.
pub open spec fn remapped(
    entries: Map<u64, Mapping>,
    orig: Map<u64, Mapping>,
    base: u64,
    count: nat,
) -> Map<u64, Mapping>
    decreases count,
{
    if count == 0 {
        entries
    } else {
        let before = remapped(entries, orig, base, (count - 1) as nat);
        let gpa = slot(base, count - 1);
        if orig.contains_key(gpa) && orig[gpa].valid {
            before.insert(gpa, mapping_to(orig[gpa].frame))
        } else {
            before
        }
    }
}

/// The raw addresses of a sequence of unmapped frames.
pub open spec fn frames_of(pages: Seq<UnmappedPage>) -> Seq<u64> {
    pages.map_values(|p: UnmappedPage| p.spec_addr_bits())
}

/// The sequence of frames that comes out of a range is no longer than the
/// range.
pub proof fn lemma_pages_len(entries: Map<u64, Mapping>, base: u64, count: nat)
    ensures
        valid_pages(entries, base, count).len() <= count,
        present_pages(entries, base, count).len() <= count,
        valid_pages(entries, base, count).len() <= present_pages(entries, base, count).len(),
    decreases count,
{
    if count > 0 {
        lemma_pages_len(entries, base, (count - 1) as nat);
    }
}

/// The entries of `m` in which the pages from the `k`-th on, of the `count`
/// pages from `base` on, are invalidated.
spec fn invalidated_from(m: Map<u64, Mapping>, base: u64, count: u64, k: nat) -> Map<u64, Mapping> {
    Map::new(
        |gpa: u64| m.contains_key(gpa),
        |gpa: u64|
            if in_range(base, count, gpa) && gpa >= base + k * PAGE_SIZE_4K && m[gpa].valid {
                Mapping { frame: m[gpa].frame, size: m[gpa].size, valid: false }
            } else {
                m[gpa]
            },
    )
}

/// Whether the entries that translate among the `count` pages from `base`
/// on are all of 4 KiB frames.
pub open spec fn maps_4k_in(m: Map<u64, Mapping>, base: u64, count: u64) -> bool {
    forall|gpa: u64|
        in_range(base, count, gpa) && #[trigger] m.contains_key(gpa) && m[gpa].valid
            ==> m[gpa].size is Size4k
}

proof fn lemma_remap_prefix(m: Map<u64, Mapping>, base: u64, count: u64, k: nat)
    requires
        range_fits(base, count),
        maps_4k_in(m, base, count),
        k <= count,
    ensures
        remapped(invalidated(m, base, count), m, base, k) == invalidated_from(m, base, count, k),
    decreases k,
{
    let inv = invalidated(m, base, count);
    if k == 0 {
        assert(inv =~= invalidated_from(m, base, count, 0)) by {
            assert forall|gpa: u64| inv.contains_key(gpa) implies inv[gpa] == invalidated_from(
                m,
                base,
                count,
                0,
            )[gpa] by {
                if in_range(base, count, gpa) && !m[gpa].valid {
                    assert(inv[gpa] == m[gpa]);
                }
            }
        }
    } else {
        lemma_remap_prefix(m, base, count, (k - 1) as nat);
        let before = invalidated_from(m, base, count, (k - 1) as nat);
        let gpa = slot(base, k - 1);
        assert((k - 1) * PAGE_SIZE_4K < count * PAGE_SIZE_4K) by (nonlinear_arith)
            requires
                k <= count,
                k >= 1,
                PAGE_SIZE_4K == 4096,
        ;
        assert(gpa == base + (k - 1) * PAGE_SIZE_4K);
        assert(in_range(base, count, gpa)) by {
            assert(((k - 1) * PAGE_SIZE_4K) % (PAGE_SIZE_4K as int) == 0) by (nonlinear_arith)
                requires
                    PAGE_SIZE_4K == 4096,
            ;
        }
        let after = invalidated_from(m, base, count, k);
        if m.contains_key(gpa) && m[gpa].valid {
            assert(before.insert(gpa, mapping_to(m[gpa].frame)) =~= after) by {
                assert forall|g: u64| after.contains_key(g) implies after[g] == before.insert(
                    gpa,
                    mapping_to(m[gpa].frame),
                )[g] by {
                    if in_range(base, count, g) {
                        lemma_slot_step(base, k, g);
                    }
                }
            }
        } else {
            assert(before =~= after) by {
                assert forall|g: u64| after.contains_key(g) implies after[g] == before[g] by {
                    if in_range(base, count, g) {
                        lemma_slot_step(base, k, g);
                    }
                }
            }
        }
    }
}

/// A page address at or above the `k-1`-th page of a range is that page or
/// lies at or above the `k`-th.
proof fn lemma_slot_step(base: u64, k: nat, g: u64)
    requires
        k >= 1,
        g >= base,
        (g - base) % (PAGE_SIZE_4K as int) == 0,
    ensures
        g >= base + (k - 1) * PAGE_SIZE_4K <==> (g == base + (k - 1) * PAGE_SIZE_4K || g >= base
            + k * PAGE_SIZE_4K),
{
    let d = g - base;
    let q = d / 4096;
    assert(d == q * 4096);
    assert(q >= k - 1 <==> q * 4096 >= (k - 1) * 4096) by (nonlinear_arith);
    assert(q >= k <==> q * 4096 >= k * 4096) by (nonlinear_arith);
    assert(q == k - 1 <==> q * 4096 == (k - 1) * 4096) by (nonlinear_arith);
}

/// The pages of a range that is one page longer are those of the range and
/// the page that follows it.
pub proof fn lemma_in_range_step(base: u64, count: u64, gpa: u64)
    requires
        base + (count + 1) * PAGE_SIZE_4K <= u64::MAX + 1,
    ensures
        in_range(base, (count + 1) as u64, gpa) <==> in_range(base, count, gpa) || gpa == base
            + count * PAGE_SIZE_4K,
{
    if gpa >= base && (gpa - base) % (PAGE_SIZE_4K as int) == 0 {
        let d = gpa - base;
        let q = d / 4096;
        assert(d == q * 4096);
        assert(q < count + 1 <==> q * 4096 < (count + 1) * 4096) by (nonlinear_arith);
        assert(q < count <==> q * 4096 < count * 4096) by (nonlinear_arith);
        assert(q == count <==> q * 4096 == count * 4096) by (nonlinear_arith);
    }
    assert((count * PAGE_SIZE_4K) % (PAGE_SIZE_4K as int) == 0) by (nonlinear_arith)
        requires
            PAGE_SIZE_4K == 4096,
    ;
}

/// When a range of 4 KiB pages has been invalidated and every frame that
/// came out of it is mapped again at the guest address it had, the table is
/// what it was before: the guest sees the same translations.
pub proof fn lemma_invalidate_then_remap(m: Map<u64, Mapping>, base: u64, count: u64)
    requires
        range_fits(base, count),
        maps_4k_in(m, base, count),
    ensures
        remapped(invalidated(m, base, count), m, base, count as nat) == m,
        translations(remapped(invalidated(m, base, count), m, base, count as nat)) == translations(
            m,
        ),
{
    lemma_remap_prefix(m, base, count, count as nat);
    assert(invalidated_from(m, base, count, count as nat) =~= m);
}

/// After a range has been invalidated or unmapped, none of its pages
/// translates, and the pages outside of it translate as before.
pub proof fn lemma_range_gone(m: Map<u64, Mapping>, base: u64, count: u64, gpa: u64)
    ensures
        in_range(base, count, gpa) ==> {
            &&& !translations(invalidated(m, base, count)).contains_key(gpa)
            &&& !translations(unmapped(m, base, count)).contains_key(gpa)
            &&& !unmapped(m, base, count).contains_key(gpa)
        },
        !in_range(base, count, gpa) ==> {
            &&& translations(invalidated(m, base, count)).contains_key(gpa) == translations(
                m,
            ).contains_key(gpa)
            &&& translations(unmapped(m, base, count)).contains_key(gpa) == translations(
                m,
            ).contains_key(gpa)
            &&& translations(m).contains_key(gpa) ==> {
                &&& translations(invalidated(m, base, count))[gpa] == translations(m)[gpa]
                &&& translations(unmapped(m, base, count))[gpa] == translations(m)[gpa]
            }
        },
{
}

/// Why a page table did not map a page. The page comes back in the error.
#[derive(Debug)]
pub enum PageTableError {
    /// The guest address is not a multiple of 4 KiB.
    Unaligned(Page4k),
    /// The supplier of page-table pages ran dry during the walk.
    NoPte(Page4k),
    /// The guest address translates already.
    AlreadyMapped(Page4k),
}

impl PageTableError {
    /// The page that was not mapped, in specifications.
    pub open spec fn spec_page(&self) -> Page4k {
        match self {
            PageTableError::Unaligned(p) => *p,
            PageTableError::NoPte(p) => *p,
            PageTableError::AlreadyMapped(p) => *p,
        }
    }

    /// The page that was not mapped.
    pub fn into_page(self) -> (r: Page4k)
        ensures
            r == self.spec_page(),
    {
        match self {
            PageTableError::Unaligned(p) => p,
            PageTableError::NoPte(p) => p,
            PageTableError::AlreadyMapped(p) => p,
        }
    }
}

/// The answer of a page table that was offered pages which cannot be its
/// root. The pages come back in it.
#[derive(Debug)]
pub struct BadRoot {
    pub pages: SequentialPages<PageSize4k>,
}

/// What `map_page_4k` answers for a table with the entries `entries` that
/// lacks `missing` interior nodes on the way to `gpa`, when `pending` pages
/// can be had for nodes.
pub open spec fn map_outcome(
    entries: Map<u64, Mapping>,
    missing: nat,
    gpa: u64,
    page: Page4k,
    pending: nat,
) -> Result<(), PageTableError> {
    if !is_aligned(gpa as int, PAGE_SIZE_4K as int) {
        Err(PageTableError::Unaligned(page))
    } else if entries.contains_key(gpa) && entries[gpa].valid {
        Err(PageTableError::AlreadyMapped(page))
    } else if pending < missing {
        Err(PageTableError::NoPte(page))
    } else {
        Ok(())
    }
}

/// The number of pages that `map_page_4k` takes from the supplier: one for
/// each missing node, as far as they can be had, once it has found that the
/// address can be mapped.
pub open spec fn nodes_taken(
    entries: Map<u64, Mapping>,
    missing: nat,
    gpa: u64,
    pending: nat,
) -> nat {
    if !is_aligned(gpa as int, PAGE_SIZE_4K as int) || (entries.contains_key(gpa)
        && entries[gpa].valid) {
        0
    } else if pending < missing {
        pending
    } else {
        missing
    }
}

/// A source of pages for the interior nodes of a page table, asked for one
/// page at a time during a walk.
pub trait PteSupplier {
    /// The frames that the supplier can still hand out, the next one first.
    spec fn pending(&self) -> Seq<u64>;

    /// The number of pages that can be put into the supplier; handing pages
    /// out does not change it.
    spec fn room(&self) -> nat;

    /// Hands out the next page, if there is one.
    fn next_pte_page(&mut self) -> (r: Option<Page4k>)
        ensures
            old(self).pending().len() == 0 ==> r is None && final(self).pending() == old(
                self,
            ).pending(),
            old(self).pending().len() > 0 ==> {
                &&& r matches Some(p)
                &&& p@ == old(self).pending()[0]
                &&& final(self).pending() == old(self).pending().skip(1)
            },
            final(self).room() == old(self).room(),
    ;
}

/// A range of pages supplies them from the lowest address up.
impl PteSupplier for SeqPageIter<PageSize4k> {
    open spec fn pending(&self) -> Seq<u64> {
        self@
    }

    open spec fn room(&self) -> nat {
        0
    }

    fn next_pte_page(&mut self) -> (r: Option<Page4k>) {
        self.next()
    }
}

/// A pool of pages supplies the page first that was put into it last.
impl PteSupplier for PageVec<Page4k> {
    open spec fn pending(&self) -> Seq<u64> {
        crate::page::page_addrs(self@).reverse()
    }

    open spec fn room(&self) -> nat {
        self.spec_capacity() as nat
    }

    fn next_pte_page(&mut self) -> (r: Option<Page4k>) {
        let ghost before = self@;
        let r = self.pop();
        proof {
            if before.len() > 0 {
                let addrs = crate::page::page_addrs(before);
                assert(crate::page::page_addrs(before.drop_last()) =~= addrs.drop_last());
                assert(addrs.drop_last().reverse() =~= addrs.reverse().skip(1));
            }
        }
        r
    }
}

/// The second-stage page table of one owner, for one platform.
///
/// The model of a table is `entries`: for each guest page that has an entry,
/// the frame and whether the entry translates. Guest addresses are those of
/// 4 KiB pages.
pub trait PlatformPageTable: Sized {
    /// The alignment that the platform asks of the top level of the table,
    /// and of the guest addresses at which ranges are taken out of it.
    const TOP_LEVEL_ALIGN: u64;

    /// The number of frames that make up the root of a table.
    const ROOT_PAGES: u64;

    /// The owner of the table and of the frames mapped in it.
    spec fn owner(&self) -> PageOwnerId;

    /// The entries of the table.
    spec fn entries(&self) -> Map<u64, Mapping>;

    /// The frames that the root of the table lives in.
    spec fn root_pages(&self) -> SequentialPages<PageSize4k>;

    /// The frames that the interior nodes of the table live in, in the order
    /// in which the table took them. They stay with the table.
    spec fn node_frames(&self) -> Seq<u64>;

    /// The number of interior nodes that the table lacks on the way from the
    /// root to the entry for `gpa`.
    spec fn missing_nodes(&self, gpa: u64) -> nat;

    /// The ranges of guest pages that `invalidate_range` and `unmap_range`
    /// work on.
    spec fn accepts_range(&self, gpa: u64, count: u64) -> bool;

    /// The faults that `do_guest_fault` resolves.
    spec fn resolves_fault(&self, addr: u64) -> bool;

    /// The number of pages that `max_pte_pages` sets aside.
    spec fn spec_max_pte_pages(num_pages: u64) -> u64;

    /// The alignment of the top level is a positive multiple of 4 KiB.
    proof fn lemma_top_level_align()
        ensures
            Self::TOP_LEVEL_ALIGN > 0,
            is_aligned(Self::TOP_LEVEL_ALIGN as int, PAGE_SIZE_4K as int),
    ;

    /// A range that the table works on starts at an address aligned to
    /// `TOP_LEVEL_ALIGN` and does not reach beyond the address space.
    proof fn lemma_accepted_range(&self, gpa: u64, count: u64)
        requires
            self.accepts_range(gpa, count),
        ensures
            is_aligned(gpa as int, Self::TOP_LEVEL_ALIGN as int),
            range_fits(gpa, count),
    ;

    /// An empty table for `owner` whose root lives in `root`. The root has to
    /// be of `ROOT_PAGES` frames and aligned to `TOP_LEVEL_ALIGN`.
    fn new(root: SequentialPages<PageSize4k>, owner: PageOwnerId) -> (r: Result<Self, BadRoot>)
        ensures
            r is Ok <==> {
                &&& root.spec_count() == Self::ROOT_PAGES
                &&& is_aligned(root.spec_base() as int, Self::TOP_LEVEL_ALIGN as int)
            },
            r matches Ok(t) ==> {
                &&& t.owner() == owner
                &&& t.entries() == Map::<u64, Mapping>::empty()
                &&& t.root_pages() == root
                &&& t.node_frames() == Seq::<u64>::empty()
            },
            r matches Err(e) ==> e.pages == root,
    ;

    /// The owner of the table.
    fn page_owner_id(&self) -> (r: PageOwnerId)
        ensures
            r == self.owner(),
    ;

    /// The number of pages to set aside for the interior nodes of a table
    /// that is to map `num_pages` pages.
    fn max_pte_pages(num_pages: u64) -> (r: u64)
        ensures
            r == Self::spec_max_pte_pages(num_pages),
    ;

    /// Maps the guest page at `gpa` to `page`. On the way from the root the
    /// table takes one page from `ptes` for each interior node that is
    /// missing. Those nodes stay in the table also when the supplier runs
    /// dry before the walk is done; the entry is then not written. A table
    /// never gives up a node: what is not missing now is not missing later.
    fn map_page_4k<P: PteSupplier>(&mut self, gpa: u64, page: Page4k, ptes: &mut P) -> (r: Result<
        (),
        PageTableError,
    >)
        ensures
            r == map_outcome(
                old(self).entries(),
                old(self).missing_nodes(gpa),
                gpa,
                page,
                old(ptes).pending().len(),
            ),
            final(ptes).pending() == old(ptes).pending().skip(
                nodes_taken(
                    old(self).entries(),
                    old(self).missing_nodes(gpa),
                    gpa,
                    old(ptes).pending().len(),
                ) as int,
            ),
            final(ptes).room() == old(ptes).room(),
            r is Ok ==> final(self).entries() == old(self).entries().insert(gpa, mapping_to(page@)),
            r is Err ==> final(self).entries() == old(self).entries(),
            r is Ok ==> final(self).missing_nodes(gpa) == 0,
            forall|g: u64| #[trigger] final(self).missing_nodes(g) <= old(self).missing_nodes(g),
            final(self).node_frames() == old(self).node_frames() + old(ptes).pending().take(
                nodes_taken(
                    old(self).entries(),
                    old(self).missing_nodes(gpa),
                    gpa,
                    old(ptes).pending().len(),
                ) as int,
            ),
            final(self).root_pages() == old(self).root_pages(),
            final(self).owner() == old(self).owner(),
    ;

    /// Invalidates the entries that translate among the `count` pages from
    /// `gpa` on, and hands out their frames by ascending guest address. The
    /// frames stay with the owner of the table.
    fn invalidate_range(&mut self, gpa: AlignedPageAddr4k, count: u64) -> (r: Option<
        Vec<UnmappedPage>,
    >)
        ensures
            r is Some <==> old(self).accepts_range(gpa@, count),
            r matches Some(pages) ==> {
                &&& pages@ == valid_pages(old(self).entries(), gpa@, count as nat)
                &&& final(self).entries() == invalidated(old(self).entries(), gpa@, count)
            },
            r is None ==> final(self).entries() == old(self).entries(),
            forall|g: u64| #[trigger] final(self).missing_nodes(g) == old(self).missing_nodes(g),
            final(self).node_frames() == old(self).node_frames(),
            final(self).root_pages() == old(self).root_pages(),
            final(self).owner() == old(self).owner(),
    ;

    /// Takes the entries of the `count` pages from `gpa` on out of the
    /// table, those that were invalidated too, and hands out their frames by
    /// ascending guest address.
    fn unmap_range(&mut self, gpa: AlignedPageAddr4k, count: u64) -> (r: Option<Vec<UnmappedPage>>)
        ensures
            r is Some <==> old(self).accepts_range(gpa@, count),
            r matches Some(pages) ==> {
                &&& pages@ == present_pages(old(self).entries(), gpa@, count as nat)
                &&& final(self).entries() == unmapped(old(self).entries(), gpa@, count)
            },
            r is None ==> final(self).entries() == old(self).entries(),
            forall|g: u64| #[trigger] final(self).missing_nodes(g) == old(self).missing_nodes(g),
            final(self).node_frames() == old(self).node_frames(),
            final(self).root_pages() == old(self).root_pages(),
            final(self).owner() == old(self).owner(),
    ;

    /// Lets the platform handle a fault of the guest at `addr`; `true` if
    /// the guest can go on.
    fn do_guest_fault(&mut self, addr: u64) -> (r: bool)
        ensures
            r == old(self).resolves_fault(addr),
            forall|g: u64| #[trigger] final(self).missing_nodes(g) <= old(self).missing_nodes(g),
            final(self).node_frames() == old(self).node_frames(),
            final(self).root_pages() == old(self).root_pages(),
            final(self).owner() == old(self).owner(),
    ;
}

/// The ranges of frames that can be the root of a table of the platform `T`.
pub open spec fn valid_root<T: PlatformPageTable>(root: SequentialPages<PageSize4k>) -> bool {
    &&& root.spec_count() == T::ROOT_PAGES
    &&& is_aligned(root.spec_base() as int, T::TOP_LEVEL_ALIGN as int)
}

} // verus!
