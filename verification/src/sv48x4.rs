//! A second-stage page table with the geometry of Sv48x4, kept in ordinary
//! memory.

use crate::page::{
    is_aligned, lemma_size_4k, AlignedPageAddr4k, Page, Page4k, PageAddr, PageOwnerId, PageSize4k,
    PhysAddr, UnmappedPage, PAGE_SIZE_4K,
};
use crate::page_table::{
    in_range, invalidated, lemma_in_range_step, page_of, present_pages, slot, unmapped,
    valid_pages, BadRoot, MappedSize, Mapping, PageTableError, PlatformPageTable, PteSupplier,
};
use crate::sequential_pages::SequentialPages;
use vstd::prelude::*;

verus! {

/// The alignment of the root of a table, and of the ranges that are taken
/// out of one: 16 KiB.
pub const SV48X4_ROOT_ALIGN: u64 = 0x4000;

/// The number of frames of the root of a table.
pub const SV48X4_ROOT_PAGES: u64 = 4;

/// The number of entries in a node of a table.
pub const ENTRIES_PER_PAGE: u64 = 512;

/// The number of bytes of guest memory below one node of the lowest level
/// of interior nodes: 2 MiB.
pub const LEVEL1_SPAN: u64 = 0x20_0000;

/// The number of bytes of guest memory below one node of the middle level:
/// 1 GiB.
pub const LEVEL2_SPAN: u64 = 0x4000_0000;

/// The number of bytes of guest memory below one node of the highest level
/// under the root: 512 GiB.
pub const LEVEL3_SPAN: u64 = 0x80_0000_0000;

/// The constants of the platform, in numbers.
pub proof fn lemma_sv48x4_constants()
    ensures
        Sv48x4::TOP_LEVEL_ALIGN == SV48X4_ROOT_ALIGN,
        Sv48x4::ROOT_PAGES == SV48X4_ROOT_PAGES,
        SV48X4_ROOT_ALIGN == 0x4000,
        SV48X4_ROOT_PAGES == 4,
{
}

/// The entry of one guest page.
#[derive(Clone, Copy, Debug)]
struct Leaf {
    gpa: u64,
    frame: u64,
    valid: bool,
}

/// An interior node: the piece of guest memory that it stands for, and the
/// frame that it lives in.
#[derive(Debug)]
struct Node {
    level: u8,
    index: u64,
    frame: Page4k,
}

/// The number of bytes of guest memory below one node of the level `level`.
pub open spec fn level_span(level: u8) -> u64 {
    if level == 1 {
        LEVEL1_SPAN
    } else if level == 2 {
        LEVEL2_SPAN
    } else {
        LEVEL3_SPAN
    }
}

spec fn mapping_of(leaf: Leaf) -> Mapping {
    Mapping { frame: leaf.frame, size: MappedSize::Size4k, valid: leaf.valid }
}

spec fn has_leaf(leaves: Seq<Leaf>, gpa: u64) -> bool {
    exists|i: int| 0 <= i < leaves.len() && (#[trigger] leaves[i]).gpa == gpa
}

spec fn entries_of(leaves: Seq<Leaf>) -> Map<u64, Mapping> {
    Map::new(
        |gpa: u64| has_leaf(leaves, gpa),
        |gpa: u64|
            mapping_of(leaves[choose|i: int| 0 <= i < leaves.len() && (#[trigger] leaves[i]).gpa == gpa]),
    )
}

spec fn leaves_ok(leaves: Seq<Leaf>) -> bool {
    &&& forall|i: int, j: int|
        0 <= i < j < leaves.len() ==> (#[trigger] leaves[i]).gpa != (#[trigger] leaves[j]).gpa
    &&& forall|i: int|
        0 <= i < leaves.len() ==> {
            &&& is_aligned((#[trigger] leaves[i]).gpa as int, PAGE_SIZE_4K as int)
            &&& is_aligned(leaves[i].frame as int, PAGE_SIZE_4K as int)
        }
}

spec fn has_node(nodes: Seq<Node>, level: u8, index: u64) -> bool {
    exists|k: int|
        0 <= k < nodes.len() && (#[trigger] nodes[k]).level == level && nodes[k].index == index
}

spec fn frames_of_nodes(nodes: Seq<Node>) -> Seq<u64> {
    nodes.map_values(|n: Node| n.frame@)
}

spec fn lacks(nodes: Seq<Node>, level: u8, gpa: u64) -> nat {
    if has_node(nodes, level, gpa / level_span(level)) {
        0
    } else {
        1
    }
}

spec fn missing(nodes: Seq<Node>, gpa: u64) -> nat {
    lacks(nodes, 3, gpa) + lacks(nodes, 2, gpa) + lacks(nodes, 1, gpa)
}

proof fn lemma_entry(leaves: Seq<Leaf>, i: int)
    requires
        leaves_ok(leaves),
        0 <= i < leaves.len(),
    ensures
        entries_of(leaves).contains_key(leaves[i].gpa),
        entries_of(leaves)[leaves[i].gpa] == mapping_of(leaves[i]),
{
    let gpa = leaves[i].gpa;
    assert(has_leaf(leaves, gpa));
    let k = choose|k: int| 0 <= k < leaves.len() && (#[trigger] leaves[k]).gpa == gpa;
    if k < i {
        assert(leaves[k].gpa != leaves[i].gpa);
    } else if i < k {
        assert(leaves[i].gpa != leaves[k].gpa);
    }
}

proof fn lemma_update(leaves: Seq<Leaf>, j: int, leaf: Leaf)
    requires
        leaves_ok(leaves),
        0 <= j < leaves.len(),
        leaf.gpa == leaves[j].gpa,
        is_aligned(leaf.frame as int, PAGE_SIZE_4K as int),
    ensures
        leaves_ok(leaves.update(j, leaf)),
        entries_of(leaves.update(j, leaf)) == entries_of(leaves).insert(leaf.gpa, mapping_of(leaf)),
{
    let after = leaves.update(j, leaf);
    assert(leaves_ok(after)) by {
        assert forall|a: int, b: int| 0 <= a < b < after.len() implies (#[trigger] after[a]).gpa != (
        #[trigger] after[b]).gpa by {
            assert(leaves[a].gpa != leaves[b].gpa);
        }
        assert forall|i: int| 0 <= i < after.len() implies {
            &&& is_aligned((#[trigger] after[i]).gpa as int, PAGE_SIZE_4K as int)
            &&& is_aligned(after[i].frame as int, PAGE_SIZE_4K as int)
        } by {
            assert(is_aligned(leaves[i].gpa as int, PAGE_SIZE_4K as int));
        }
    }
    let want = entries_of(leaves).insert(leaf.gpa, mapping_of(leaf));
    assert forall|g: u64| entries_of(after).contains_key(g) <==> want.contains_key(g) by {
        if has_leaf(after, g) {
            let k = choose|k: int| 0 <= k < after.len() && (#[trigger] after[k]).gpa == g;
            assert(leaves[k].gpa == g);
        }
        if has_leaf(leaves, g) {
            let k = choose|k: int| 0 <= k < leaves.len() && (#[trigger] leaves[k]).gpa == g;
            assert(after[k].gpa == g);
        }
        if g == leaf.gpa {
            assert(after[j].gpa == g);
        }
    }
    assert forall|g: u64| entries_of(after).contains_key(g) implies entries_of(after)[g]
        == want[g] by {
        let k = choose|k: int| 0 <= k < after.len() && (#[trigger] after[k]).gpa == g;
        lemma_entry(after, k);
        if k != j {
            assert(leaves[k].gpa == g);
            lemma_entry(leaves, k);
            if k < j {
                assert(leaves[k].gpa != leaves[j].gpa);
            } else {
                assert(leaves[j].gpa != leaves[k].gpa);
            }
        }
    }
    assert(entries_of(after) =~= want);
}

proof fn lemma_push(leaves: Seq<Leaf>, leaf: Leaf)
    requires
        leaves_ok(leaves),
        !has_leaf(leaves, leaf.gpa),
        is_aligned(leaf.gpa as int, PAGE_SIZE_4K as int),
        is_aligned(leaf.frame as int, PAGE_SIZE_4K as int),
    ensures
        leaves_ok(leaves.push(leaf)),
        entries_of(leaves.push(leaf)) == entries_of(leaves).insert(leaf.gpa, mapping_of(leaf)),
{
    let after = leaves.push(leaf);
    assert(leaves_ok(after)) by {
        assert forall|a: int, b: int| 0 <= a < b < after.len() implies (#[trigger] after[a]).gpa != (
        #[trigger] after[b]).gpa by {
            if b < leaves.len() {
                assert(leaves[a].gpa != leaves[b].gpa);
            } else {
                assert(leaves[a].gpa != leaf.gpa);
            }
        }
        assert forall|i: int| 0 <= i < after.len() implies {
            &&& is_aligned((#[trigger] after[i]).gpa as int, PAGE_SIZE_4K as int)
            &&& is_aligned(after[i].frame as int, PAGE_SIZE_4K as int)
        } by {
            if i < leaves.len() {
                assert(is_aligned(leaves[i].gpa as int, PAGE_SIZE_4K as int));
            }
        }
    }
    let want = entries_of(leaves).insert(leaf.gpa, mapping_of(leaf));
    assert forall|g: u64| entries_of(after).contains_key(g) <==> want.contains_key(g) by {
        if has_leaf(after, g) {
            let k = choose|k: int| 0 <= k < after.len() && (#[trigger] after[k]).gpa == g;
            if k < leaves.len() {
                assert(leaves[k].gpa == g);
            }
        }
        if has_leaf(leaves, g) {
            let k = choose|k: int| 0 <= k < leaves.len() && (#[trigger] leaves[k]).gpa == g;
            assert(after[k].gpa == g);
        }
        if g == leaf.gpa {
            assert(after[leaves.len() as int].gpa == g);
        }
    }
    assert forall|g: u64| entries_of(after).contains_key(g) implies entries_of(after)[g]
        == want[g] by {
        let k = choose|k: int| 0 <= k < after.len() && (#[trigger] after[k]).gpa == g;
        lemma_entry(after, k);
        if k < leaves.len() {
            assert(leaves[k].gpa == g);
            lemma_entry(leaves, k);
        }
    }
    assert(entries_of(after) =~= want);
}

proof fn lemma_remove(leaves: Seq<Leaf>, j: int)
    requires
        leaves_ok(leaves),
        0 <= j < leaves.len(),
    ensures
        leaves_ok(leaves.remove(j)),
        entries_of(leaves.remove(j)) == entries_of(leaves).remove(leaves[j].gpa),
{
    let after = leaves.remove(j);
    assert forall|k: int| 0 <= k < after.len() implies #[trigger] after[k] == leaves[if k < j {
        k
    } else {
        k + 1
    }] by {}
    assert(leaves_ok(after)) by {
        assert forall|a: int, b: int| 0 <= a < b < after.len() implies (#[trigger] after[a]).gpa != (
        #[trigger] after[b]).gpa by {
            let a0 = if a < j {
                a
            } else {
                a + 1
            };
            let b0 = if b < j {
                b
            } else {
                b + 1
            };
            assert(leaves[a0].gpa != leaves[b0].gpa);
        }
        assert forall|i: int| 0 <= i < after.len() implies {
            &&& is_aligned((#[trigger] after[i]).gpa as int, PAGE_SIZE_4K as int)
            &&& is_aligned(after[i].frame as int, PAGE_SIZE_4K as int)
        } by {
            let i0 = if i < j {
                i
            } else {
                i + 1
            };
            assert(is_aligned(leaves[i0].gpa as int, PAGE_SIZE_4K as int));
        }
    }
    let gone = leaves[j].gpa;
    let want = entries_of(leaves).remove(gone);
    assert forall|g: u64| entries_of(after).contains_key(g) <==> want.contains_key(g) by {
        if has_leaf(after, g) {
            let k = choose|k: int| 0 <= k < after.len() && (#[trigger] after[k]).gpa == g;
            let k0 = if k < j {
                k
            } else {
                k + 1
            };
            assert(leaves[k0].gpa == g);
            if k0 < j {
                assert(leaves[k0].gpa != leaves[j].gpa);
            } else {
                assert(leaves[j].gpa != leaves[k0].gpa);
            }
        }
        if has_leaf(leaves, g) && g != gone {
            let k = choose|k: int| 0 <= k < leaves.len() && (#[trigger] leaves[k]).gpa == g;
            let k0 = if k < j {
                k
            } else {
                k - 1
            };
            assert(after[k0].gpa == g);
        }
    }
    assert forall|g: u64| entries_of(after).contains_key(g) implies entries_of(after)[g]
        == want[g] by {
        let k = choose|k: int| 0 <= k < after.len() && (#[trigger] after[k]).gpa == g;
        lemma_entry(after, k);
        let k0 = if k < j {
            k
        } else {
            k + 1
        };
        assert(leaves[k0].gpa == g);
        lemma_entry(leaves, k0);
    }
    assert(entries_of(after) =~= want);
}

/// The place of the entry of `gpa` among `leaves`.
fn find_leaf(leaves: &Vec<Leaf>, gpa: u64) -> (r: Option<usize>)
    ensures
        r is Some <==> has_leaf(leaves@, gpa),
        r matches Some(i) ==> i < leaves@.len() && leaves@[i as int].gpa == gpa,
{
    let mut i: usize = 0;
    while i < leaves.len()
        invariant
            i <= leaves@.len(),
            forall|k: int| 0 <= k < i ==> (#[trigger] leaves@[k]).gpa != gpa,
        decreases leaves@.len() - i,
    {
        if leaves[i].gpa == gpa {
            return Some(i);
        }
        i = i + 1;
    }
    None
}

/// Whether `nodes` holds the node `index` of the level `level`.
fn find_node(nodes: &Vec<Node>, level: u8, index: u64) -> (r: bool)
    ensures
        r == has_node(nodes@, level, index),
{
    let mut i: usize = 0;
    while i < nodes.len()
        invariant
            i <= nodes@.len(),
            forall|k: int|
                0 <= k < i ==> !((#[trigger] nodes@[k]).level == level && nodes@[k].index == index),
        decreases nodes@.len() - i,
    {
        if nodes[i].level == level && nodes[i].index == index {
            return true;
        }
        i = i + 1;
    }
    false
}

/// Makes sure that `nodes` holds the node `index` of the level `level`, with
/// a page from `ptes` if the node is missing. `false` if it is missing and
/// `ptes` has no page.
fn ensure_node<P: PteSupplier>(nodes: &mut Vec<Node>, level: u8, index: u64, ptes: &mut P) -> (r:
    bool)
    ensures
        final(ptes).room() == old(ptes).room(),
        has_node(old(nodes)@, level, index) ==> {
            &&& r
            &&& final(nodes)@ == old(nodes)@
            &&& final(ptes).pending() == old(ptes).pending()
        },
        !has_node(old(nodes)@, level, index) && old(ptes).pending().len() > 0 ==> {
            &&& r
            &&& final(ptes).pending() == old(ptes).pending().skip(1)
            &&& frames_of_nodes(final(nodes)@) == frames_of_nodes(old(nodes)@).push(
                old(ptes).pending()[0],
            )
        },
        !has_node(old(nodes)@, level, index) && old(ptes).pending().len() == 0 ==> {
            &&& !r
            &&& final(nodes)@ == old(nodes)@
            &&& final(ptes).pending() == old(ptes).pending()
        },
        r ==> has_node(final(nodes)@, level, index),
        forall|l: u8, i: u64|
            (l != level || i != index) ==> has_node(final(nodes)@, l, i) == has_node(
                old(nodes)@,
                l,
                i,
            ),
{
    if find_node(nodes, level, index) {
        return true;
    }
    match ptes.next_pte_page() {
        Some(frame) => {
            let ghost before = nodes@;
            nodes.push(Node { level, index, frame });
            proof {
                assert(frames_of_nodes(nodes@) =~= frames_of_nodes(before).push(frame@));
                assert(nodes@[before.len() as int].level == level);
                assert forall|l: u8, i: u64| (l != level || i != index) implies has_node(nodes@, l, i)
                    == has_node(before, l, i) by {
                    if has_node(nodes@, l, i) {
                        let k = choose|k: int|
                            0 <= k < nodes@.len() && (#[trigger] nodes@[k]).level == l
                                && nodes@[k].index == i;
                        assert(before[k].level == l);
                    }
                    if has_node(before, l, i) {
                        let k = choose|k: int|
                            0 <= k < before.len() && (#[trigger] before[k]).level == l
                                && before[k].index == i;
                        assert(nodes@[k].level == l);
                    }
                }
            }
            true
        },
        None => false,
    }
}

/// The handle of the frame at `frame`, as it comes out of a table.
fn page_out(frame: u64) -> (r: Option<UnmappedPage>)
    requires
        is_aligned(frame as int, PAGE_SIZE_4K as int),
    ensures
        r == Some(
            UnmappedPage::Page4k(Page::<PageSize4k>::at(PageAddr::<PageSize4k>::from_bits(frame))),
        ),
{
    proof {
        lemma_size_4k();
    }
    match PageAddr::<PageSize4k>::new(PhysAddr::new(frame)) {
        Some(addr) => {
            proof {
                addr.lemma_from_bits();
            }
            Some(UnmappedPage::new(Page::new(addr)))
        },
        None => None,
    }
}

/// A second-stage page table with the geometry of Sv48x4: a root of four
/// frames aligned to 16 KiB, and three levels of interior nodes of 512
/// entries under it, for guest pages of 4 KiB.
///
/// The table records the translations and keeps the frames of its nodes. It
/// does not write entries in the format of the hardware into those frames:
/// that is left to the platform.
#[derive(Debug)]
pub struct Sv48x4 {
    root: SequentialPages<PageSize4k>,
    owner: PageOwnerId,
    nodes: Vec<Node>,
    leaves: Vec<Leaf>,
}

impl Sv48x4 {
    #[verifier::type_invariant]
    spec fn inv(self) -> bool {
        leaves_ok(self.leaves@)
    }

    /// The number of interior nodes, in specifications.
    pub closed spec fn spec_num_nodes(&self) -> nat {
        self.nodes@.len()
    }

    /// The address of the first frame of the root.
    pub fn root_base(&self) -> (r: u64)
        ensures
            r == self.root_pages().spec_base(),
    {
        self.root.base()
    }

    /// The number of interior nodes that the table has taken pages for.
    pub fn num_nodes(&self) -> (r: usize)
        ensures
            r == self.spec_num_nodes(),
    {
        self.nodes.len()
    }

    /// The frame that the guest page at `gpa` translates to, if it does.
    pub fn translate(&self, gpa: u64) -> (r: Option<u64>)
        ensures
            r is Some <==> crate::page_table::translations(self.entries()).contains_key(gpa),
            r matches Some(frame) ==> frame == crate::page_table::translations(self.entries())[gpa],
    {
        proof {
            use_type_invariant(self);
        }
        match find_leaf(&self.leaves, gpa) {
            Some(i) => {
                proof {
                    lemma_entry(self.leaves@, i as int);
                }
                if self.leaves[i].valid {
                    Some(self.leaves[i].frame)
                } else {
                    None
                }
            },
            None => None,
        }
    }

    /// Whether the table has an entry for the guest page at `gpa`, be it
    /// one that translates or one that was invalidated.
    pub fn has_entry(&self, gpa: u64) -> (r: bool)
        ensures
            r == self.entries().contains_key(gpa),
    {
        find_leaf(&self.leaves, gpa).is_some()
    }
}

impl PlatformPageTable for Sv48x4 {
    const TOP_LEVEL_ALIGN: u64 = SV48X4_ROOT_ALIGN;

    const ROOT_PAGES: u64 = SV48X4_ROOT_PAGES;

    closed spec fn owner(&self) -> PageOwnerId {
        self.owner
    }

    closed spec fn entries(&self) -> Map<u64, Mapping> {
        entries_of(self.leaves@)
    }

    closed spec fn root_pages(&self) -> SequentialPages<PageSize4k> {
        self.root
    }

    closed spec fn node_frames(&self) -> Seq<u64> {
        frames_of_nodes(self.nodes@)
    }

    closed spec fn missing_nodes(&self, gpa: u64) -> nat {
        missing(self.nodes@, gpa)
    }

    open spec fn accepts_range(&self, gpa: u64, count: u64) -> bool {
        &&& is_aligned(gpa as int, SV48X4_ROOT_ALIGN as int)
        &&& gpa + count * PAGE_SIZE_4K <= u64::MAX
    }

    open spec fn resolves_fault(&self, addr: u64) -> bool {
        crate::page_table::translations(self.entries()).contains_key(
            (addr - addr % PAGE_SIZE_4K) as u64,
        )
    }

    open spec fn spec_max_pte_pages(num_pages: u64) -> u64 {
        let level1 = num_pages / ENTRIES_PER_PAGE + 1;
        let level2 = level1 / (ENTRIES_PER_PAGE as int) + 1;
        let level3 = level2 / (ENTRIES_PER_PAGE as int) + 1;
        (level1 + level2 + level3) as u64
    }

    proof fn lemma_top_level_align() {
    }

    proof fn lemma_accepted_range(&self, gpa: u64, count: u64) {
    }

    fn new(root: SequentialPages<PageSize4k>, owner: PageOwnerId) -> (r: Result<Self, BadRoot>)
        ensures
            r matches Ok(t) ==> {
                &&& t.spec_num_nodes() == 0
                &&& forall|gpa: u64| #[trigger] t.missing_nodes(gpa) == 3
            },
    {
        if root.count() != SV48X4_ROOT_PAGES || root.base() % SV48X4_ROOT_ALIGN != 0 {
            return Err(BadRoot { pages: root });
        }
        let leaves: Vec<Leaf> = Vec::new();
        let nodes: Vec<Node> = Vec::new();
        proof {
            assert(entries_of(leaves@) =~= Map::<u64, Mapping>::empty());
            assert(frames_of_nodes(nodes@) =~= Seq::<u64>::empty());
        }
        Ok(Sv48x4 { root, owner, nodes, leaves })
    }

    fn page_owner_id(&self) -> (r: PageOwnerId) {
        self.owner
    }

    fn max_pte_pages(num_pages: u64) -> (r: u64) {
        let level1 = num_pages / ENTRIES_PER_PAGE + 1;
        let level2 = level1 / ENTRIES_PER_PAGE + 1;
        let level3 = level2 / ENTRIES_PER_PAGE + 1;
        level1 + level2 + level3
    }

    fn map_page_4k<P: PteSupplier>(&mut self, gpa: u64, page: Page4k, ptes: &mut P) -> (r: Result<
        (),
        PageTableError,
    >) {
        proof {
            use_type_invariant(&*self);
        }
        if gpa % PAGE_SIZE_4K != 0 {
            proof {
                assert(old(ptes).pending().skip(0) =~= old(ptes).pending());
                assert(self.node_frames() + old(ptes).pending().take(0) =~= self.node_frames());
            }
            return Err(PageTableError::Unaligned(page));
        }
        let place = find_leaf(&self.leaves, gpa);
        match place {
            Some(i) => {
                proof {
                    lemma_entry(self.leaves@, i as int);
                }
                if self.leaves[i].valid {
                    proof {
                        assert(old(ptes).pending().skip(0) =~= old(ptes).pending());
                        assert(self.node_frames() + old(ptes).pending().take(0)
                            =~= self.node_frames());
                    }
                    return Err(PageTableError::AlreadyMapped(page));
                }
            },
            None => {},
        }
        let ghost pending = ptes.pending();
        let ghost nodes0 = self.nodes@;
        let mut nodes: Vec<Node> = Vec::new();
        core::mem::swap(&mut nodes, &mut self.nodes);
        let have3 = ensure_node(&mut nodes, 3, gpa / LEVEL3_SPAN, ptes);
        let ghost taken3 = lacks(nodes0, 3, gpa);
        let have2 = have3 && ensure_node(&mut nodes, 2, gpa / LEVEL2_SPAN, ptes);
        let ghost taken2 = taken3 + lacks(nodes0, 2, gpa);
        let have1 = have2 && ensure_node(&mut nodes, 1, gpa / LEVEL1_SPAN, ptes);
        core::mem::swap(&mut nodes, &mut self.nodes);
        proof {
            let frames0 = frames_of_nodes(nodes0);
            assert(frames0 + pending.take(0) =~= frames0);
            if pending.len() >= 1 {
                assert(frames0.push(pending[0]) =~= frames0 + pending.take(1));
            }
            if pending.len() >= 2 {
                assert(frames0.push(pending[0]).push(pending.skip(1)[0]) =~= frames0
                    + pending.take(2));
            }
            if pending.len() >= 3 {
                assert(frames0.push(pending[0]).push(pending.skip(1)[0]).push(pending.skip(2)[0])
                    =~= frames0 + pending.take(3));
            }
            assert(pending.skip(0) =~= pending);
            if pending.len() >= 1 {
                assert(pending.skip(1).skip(0) =~= pending.skip(1));
            }
            if pending.len() >= 2 {
                assert(pending.skip(1).skip(1) =~= pending.skip(2));
            }
            if pending.len() >= 3 {
                assert(pending.skip(2).skip(1) =~= pending.skip(3));
            }
        }
        if !have1 {
            return Err(PageTableError::NoPte(page));
        }
        let leaf = Leaf { gpa, frame: page.addr().bits(), valid: true };
        proof {
            lemma_size_4k();
        }
        let mut leaves: Vec<Leaf> = Vec::new();
        core::mem::swap(&mut leaves, &mut self.leaves);
        match place {
            Some(i) => {
                proof {
                    lemma_update(leaves@, i as int, leaf);
                }
                leaves.set(i, leaf);
            },
            None => {
                proof {
                    lemma_push(leaves@, leaf);
                }
                leaves.push(leaf);
            },
        }
        core::mem::swap(&mut leaves, &mut self.leaves);
        Ok(())
    }

    fn invalidate_range(&mut self, gpa: AlignedPageAddr4k, count: u64) -> (r: Option<
        Vec<UnmappedPage>,
    >)
        ensures
            r matches Some(pages) ==> forall|i: int|
                0 <= i < pages@.len() ==> #[trigger] pages@[i] is Page4k,
    {
        proof {
            use_type_invariant(&*self);
            lemma_size_4k();
        }
        let base = gpa.bits();
        if base % SV48X4_ROOT_ALIGN != 0 {
            return None;
        }
        if gpa.checked_add_pages(count).is_none() {
            return None;
        }
        let mut leaves: Vec<Leaf> = Vec::new();
        core::mem::swap(&mut leaves, &mut self.leaves);
        let ghost before = entries_of(leaves@);
        let mut out: Vec<UnmappedPage> = Vec::new();
        let mut i: u64 = 0;
        proof {
            assert(entries_of(leaves@) =~= invalidated(before, base, 0));
            assert(out@ =~= valid_pages(before, base, 0));
        }
        while i < count
            invariant
                i <= count,
                base + count * PAGE_SIZE_4K <= u64::MAX,
                leaves_ok(leaves@),
                entries_of(leaves@) == invalidated(before, base, i),
                out@ == valid_pages(before, base, i as nat),
                forall|k: int| 0 <= k < out@.len() ==> #[trigger] out@[k] is Page4k,
            decreases count - i,
        {
            proof {
                assert(i * PAGE_SIZE_4K < count * PAGE_SIZE_4K) by (nonlinear_arith)
                    requires
                        i < count,
                        PAGE_SIZE_4K == 4096,
                ;
            }
            let g = base + i * PAGE_SIZE_4K;
            let ghost cur = entries_of(leaves@);
            let ghost done = out@;
            proof {
                assert(g == slot(base, i as int));
                assert(!in_range(base, i, g)) by {
                    assert(!(g < base + i * PAGE_SIZE_4K));
                }
                assert forall|x: u64| in_range(base, (i + 1) as u64, x) <==> in_range(base, i, x)
                    || x == g by {
                    lemma_in_range_step(base, i, x);
                }
            }
            match find_leaf(&leaves, g) {
                Some(j) => {
                    let leaf = leaves[j];
                    proof {
                        lemma_entry(leaves@, j as int);
                        assert(cur[g] == before[g]);
                    }
                    if leaf.valid {
                        let cleared = Leaf { gpa: leaf.gpa, frame: leaf.frame, valid: false };
                        proof {
                            lemma_update(leaves@, j as int, cleared);
                        }
                        leaves.set(j, cleared);
                        match page_out(leaf.frame) {
                            Some(p) => {
                                out.push(p);
                            },
                            None => {},
                        }
                        proof {
                            assert(out@ =~= done.push(page_of(before[g])));
                            assert(entries_of(leaves@) =~= invalidated(before, base, (i + 1) as u64));
                        }
                    } else {
                        proof {
                            assert(entries_of(leaves@) =~= invalidated(before, base, (i + 1) as u64));
                        }
                    }
                },
                None => {
                    proof {
                        assert(!cur.contains_key(g));
                        assert(entries_of(leaves@) =~= invalidated(before, base, (i + 1) as u64));
                    }
                },
            }
            i = i + 1;
        }
        core::mem::swap(&mut leaves, &mut self.leaves);
        Some(out)
    }

    fn unmap_range(&mut self, gpa: AlignedPageAddr4k, count: u64) -> (r: Option<Vec<UnmappedPage>>)
        ensures
            r matches Some(pages) ==> forall|i: int|
                0 <= i < pages@.len() ==> #[trigger] pages@[i] is Page4k,
    {
        proof {
            use_type_invariant(&*self);
            lemma_size_4k();
        }
        let base = gpa.bits();
        if base % SV48X4_ROOT_ALIGN != 0 {
            return None;
        }
        if gpa.checked_add_pages(count).is_none() {
            return None;
        }
        let mut leaves: Vec<Leaf> = Vec::new();
        core::mem::swap(&mut leaves, &mut self.leaves);
        let ghost before = entries_of(leaves@);
        let mut out: Vec<UnmappedPage> = Vec::new();
        let mut i: u64 = 0;
        proof {
            assert(entries_of(leaves@) =~= unmapped(before, base, 0));
            assert(out@ =~= present_pages(before, base, 0));
        }
        while i < count
            invariant
                i <= count,
                base + count * PAGE_SIZE_4K <= u64::MAX,
                leaves_ok(leaves@),
                entries_of(leaves@) == unmapped(before, base, i),
                out@ == present_pages(before, base, i as nat),
                forall|k: int| 0 <= k < out@.len() ==> #[trigger] out@[k] is Page4k,
            decreases count - i,
        {
            proof {
                assert(i * PAGE_SIZE_4K < count * PAGE_SIZE_4K) by (nonlinear_arith)
                    requires
                        i < count,
                        PAGE_SIZE_4K == 4096,
                ;
            }
            let g = base + i * PAGE_SIZE_4K;
            let ghost cur = entries_of(leaves@);
            let ghost done = out@;
            proof {
                assert(g == slot(base, i as int));
                assert(!in_range(base, i, g)) by {
                    assert(!(g < base + i * PAGE_SIZE_4K));
                }
                assert forall|x: u64| in_range(base, (i + 1) as u64, x) <==> in_range(base, i, x)
                    || x == g by {
                    lemma_in_range_step(base, i, x);
                }
            }
            match find_leaf(&leaves, g) {
                Some(j) => {
                    let leaf = leaves[j];
                    proof {
                        lemma_entry(leaves@, j as int);
                        assert(cur[g] == before[g]);
                        lemma_remove(leaves@, j as int);
                    }
                    leaves.remove(j);
                    match page_out(leaf.frame) {
                        Some(p) => {
                            out.push(p);
                        },
                        None => {},
                    }
                    proof {
                        assert(out@ =~= done.push(page_of(before[g])));
                        assert(entries_of(leaves@) =~= unmapped(before, base, (i + 1) as u64));
                    }
                },
                None => {
                    proof {
                        assert(!cur.contains_key(g));
                        assert(entries_of(leaves@) =~= unmapped(before, base, (i + 1) as u64));
                    }
                },
            }
            i = i + 1;
        }
        core::mem::swap(&mut leaves, &mut self.leaves);
        Some(out)
    }

    fn do_guest_fault(&mut self, addr: u64) -> (r: bool)
        ensures
            *final(self) == *old(self),
    {
        proof {
            use_type_invariant(&*self);
        }
        let gpa = addr - addr % PAGE_SIZE_4K;
        match find_leaf(&self.leaves, gpa) {
            Some(i) => {
                proof {
                    lemma_entry(self.leaves@, i as int);
                }
                self.leaves[i].valid
            },
            None => false,
        }
    }
}

} // verus!
