use guest_pages::page::{AlignedPageAddr4k, Page4k, PageAddr, PageOwnerId, PageSize4k, PhysAddr};
use guest_pages::page_table::{PageTableError, PlatformPageTable, PteSupplier};
use guest_pages::page_vec::PageVec;
use guest_pages::sequential_pages::{SeqPageIter, SequentialPages};
use guest_pages::sv48x4::Sv48x4;

fn at(a: u64) -> AlignedPageAddr4k {
    PageAddr::new(PhysAddr::new(a)).unwrap()
}

fn frame(a: u64) -> Page4k {
    Page4k::new(at(a))
}

fn range(base: u64, count: u64) -> SequentialPages<PageSize4k> {
    SequentialPages::from_mem_range(at(base), count)
}

fn table() -> Sv48x4 {
    Sv48x4::new(range(0x8000_0000, 4), PageOwnerId::host()).unwrap()
}

fn supply(base: u64, count: u64) -> SeqPageIter<PageSize4k> {
    range(base, count).into_iter()
}

fn frames(pages: Vec<guest_pages::page::UnmappedPage>) -> Vec<u64> {
    pages.iter().map(|p| p.addr_bits()).collect()
}

#[test]
fn root_has_to_be_four_aligned_frames() {
    let t = Sv48x4::new(range(0x8000_0000, 4), PageOwnerId::host()).unwrap();
    assert_eq!(t.page_owner_id(), PageOwnerId::host());
    assert_eq!(t.root_base(), 0x8000_0000);
    assert_eq!(t.num_nodes(), 0);
    assert_eq!(Sv48x4::TOP_LEVEL_ALIGN, 0x4000);
    assert_eq!(Sv48x4::ROOT_PAGES, 4);

    let bad = Sv48x4::new(range(0x8000_0000, 3), PageOwnerId::host()).unwrap_err();
    assert_eq!(bad.pages.base(), 0x8000_0000);
    assert_eq!(bad.pages.count(), 3);
    let bad = Sv48x4::new(range(0x8000_0000, 5), PageOwnerId::host()).unwrap_err();
    assert_eq!(bad.pages.count(), 5);
    let bad = Sv48x4::new(range(0x8000_1000, 4), PageOwnerId::host()).unwrap_err();
    assert_eq!(bad.pages.base(), 0x8000_1000);
    let bad = Sv48x4::new(range(0x8000_2000, 4), PageOwnerId::host()).unwrap_err();
    assert_eq!(bad.pages.base(), 0x8000_2000);
}

#[test]
fn first_mapping_takes_a_page_for_each_level() {
    let mut t = table();
    let mut ptes = supply(0x9000_0000, 8);
    assert!(t.map_page_4k(0x10_0000, frame(0xa000_0000), &mut ptes).is_ok());
    assert_eq!(t.num_nodes(), 3);
    assert_eq!(t.translate(0x10_0000), Some(0xa000_0000));
    assert_eq!(ptes.next().unwrap().addr().bits(), 0x9000_3000);

    assert!(t.map_page_4k(0x10_1000, frame(0xa000_1000), &mut ptes).is_ok());
    assert_eq!(t.num_nodes(), 3);
    assert!(t.map_page_4k(0x20_0000, frame(0xa000_2000), &mut ptes).is_ok());
    assert_eq!(t.num_nodes(), 4);
    assert!(t.map_page_4k(0x4000_0000, frame(0xa000_3000), &mut ptes).is_ok());
    assert_eq!(t.num_nodes(), 6);
    assert_eq!(ptes.next().unwrap().addr().bits(), 0x9000_7000);
    assert!(ptes.next().is_none());
    assert!(t
        .map_page_4k(0x80_0000_0000, frame(0xa000_4000), &mut ptes)
        .is_err());
    assert_eq!(t.translate(0x10_1000), Some(0xa000_1000));
    assert_eq!(t.translate(0x20_0000), Some(0xa000_2000));
    assert_eq!(t.translate(0x4000_0000), Some(0xa000_3000));
    assert_eq!(t.translate(0x80_0000_0000), None);
    assert_eq!(t.translate(0x10_2000), None);
}

#[test]
fn failed_mapping_hands_the_page_back() {
    let mut t = table();
    let mut ptes = supply(0x9000_0000, 2);
    match t.map_page_4k(0x10_0800, frame(0xa000_0000), &mut ptes) {
        Err(PageTableError::Unaligned(p)) => assert_eq!(p.addr().bits(), 0xa000_0000),
        _ => panic!("mapped at an unaligned address"),
    }
    assert_eq!(t.num_nodes(), 0);
    match t.map_page_4k(0x10_0000, frame(0xa000_0000), &mut ptes) {
        Err(e) => {
            assert!(matches!(e, PageTableError::NoPte(_)));
            assert_eq!(e.into_page().addr().bits(), 0xa000_0000);
        }
        Ok(()) => panic!("mapped without pages for the nodes"),
    }
    assert_eq!(t.num_nodes(), 2);
    assert!(ptes.next().is_none());
    assert_eq!(t.translate(0x10_0000), None);
    assert!(!t.has_entry(0x10_0000));

    let mut more = supply(0x9000_8000, 1);
    assert!(t.map_page_4k(0x10_0000, frame(0xa000_0000), &mut more).is_ok());
    assert_eq!(t.num_nodes(), 3);
    match t.map_page_4k(0x10_0000, frame(0xa000_5000), &mut more) {
        Err(PageTableError::AlreadyMapped(p)) => assert_eq!(p.addr().bits(), 0xa000_5000),
        _ => panic!("mapped twice"),
    }
    assert_eq!(t.translate(0x10_0000), Some(0xa000_0000));
}

#[test]
fn pool_supplies_the_newest_page_first() {
    let mut t = table();
    let mut pool: PageVec<Page4k> = PageVec::from(SequentialPages::from(frame(0x9000_0000)));
    for i in 1..6u64 {
        pool.push(frame(0x9000_0000 + i * 0x1000));
    }
    assert_eq!(pool.next_pte_page().unwrap().addr().bits(), 0x9000_5000);
    assert!(t.map_page_4k(0x10_0000, frame(0xa000_0000), &mut pool).is_ok());
    assert_eq!(pool.len(), 1);
    assert_eq!(pool.pop().unwrap().addr().bits(), 0x9000_1000);
    assert!(pool.next_pte_page().is_none());
}

fn filled() -> Sv48x4 {
    let mut t = table();
    let mut ptes = supply(0x9000_0000, 16);
    for i in [0u64, 1, 2, 4, 5, 7] {
        t.map_page_4k(0x10_0000 + i * 0x1000, frame(0xa000_0000 + i * 0x1000), &mut ptes)
            .unwrap();
    }
    t
}

#[test]
fn invalidate_hands_out_frames_in_ascending_order() {
    let mut t = filled();
    let pages = t.invalidate_range(at(0x10_0000), 6).unwrap();
    assert_eq!(
        frames(pages),
        vec![0xa000_0000, 0xa000_1000, 0xa000_2000, 0xa000_4000, 0xa000_5000]
    );
    for i in 0..6u64 {
        assert_eq!(t.translate(0x10_0000 + i * 0x1000), None);
    }
    assert!(t.has_entry(0x10_0000));
    assert!(!t.has_entry(0x10_3000));
    assert_eq!(t.translate(0x10_7000), Some(0xa000_7000));

    let again = t.invalidate_range(at(0x10_0000), 8).unwrap();
    assert_eq!(frames(again), vec![0xa000_7000]);
    assert!(t.invalidate_range(at(0x10_0000), 8).unwrap().is_empty());
    assert!(t.invalidate_range(at(0x10_0000), 0).unwrap().is_empty());
}

#[test]
fn ranges_have_to_be_aligned_and_within_the_address_space() {
    let mut t = filled();
    assert!(t.invalidate_range(at(0x10_1000), 2).is_none());
    assert!(t.invalidate_range(at(0x10_2000), 2).is_none());
    assert!(t.unmap_range(at(0x10_3000), 2).is_none());
    assert!(t.invalidate_range(at(0x10_0000), u64::MAX).is_none());
    assert!(t.unmap_range(at(0x10_0000), 1 << 52).is_none());
    assert!(t.invalidate_range(at(0xffff_ffff_ffff_c000), 4).is_none());
    assert!(t.invalidate_range(at(0xffff_ffff_ffff_c000), 3).unwrap().is_empty());
    for i in [0u64, 1, 2, 4, 5, 7] {
        assert_eq!(
            t.translate(0x10_0000 + i * 0x1000),
            Some(0xa000_0000 + i * 0x1000)
        );
    }
}

#[test]
fn unmap_takes_invalidated_entries_out_too() {
    let mut t = filled();
    let first = t.invalidate_range(at(0x10_0000), 2).unwrap();
    assert_eq!(frames(first), vec![0xa000_0000, 0xa000_1000]);
    let pages = t.unmap_range(at(0x10_0000), 6).unwrap();
    assert_eq!(
        frames(pages),
        vec![0xa000_0000, 0xa000_1000, 0xa000_2000, 0xa000_4000, 0xa000_5000]
    );
    for i in 0..6u64 {
        assert!(!t.has_entry(0x10_0000 + i * 0x1000));
    }
    assert!(t.has_entry(0x10_7000));
    assert!(t.unmap_range(at(0x10_0000), 6).unwrap().is_empty());
    assert_eq!(frames(t.unmap_range(at(0x10_4000), 4).unwrap()), vec![0xa000_7000]);
}

#[test]
fn mapping_again_after_invalidating_restores_the_translations() {
    let mut t = filled();
    let pages = t.invalidate_range(at(0x10_0000), 8).unwrap();
    let gpas = [0x10_0000u64, 0x10_1000, 0x10_2000, 0x10_4000, 0x10_5000, 0x10_7000];
    assert_eq!(pages.len(), gpas.len());
    let mut none = supply(0x9100_0000, 0);
    for (page, gpa) in pages.into_iter().zip(gpas) {
        t.map_page_4k(gpa, page.unwrap_4k(), &mut none).unwrap();
    }
    for i in 0..8u64 {
        let want = if [0u64, 1, 2, 4, 5, 7].contains(&i) {
            Some(0xa000_0000 + i * 0x1000)
        } else {
            None
        };
        assert_eq!(t.translate(0x10_0000 + i * 0x1000), want);
    }
}

#[test]
fn fault_is_resolved_where_the_page_translates() {
    let mut t = filled();
    assert!(t.do_guest_fault(0x10_0000));
    assert!(t.do_guest_fault(0x10_0fff));
    assert!(t.do_guest_fault(0x10_7abc));
    assert!(!t.do_guest_fault(0x10_3000));
    assert!(!t.do_guest_fault(0x10_8000));
    assert!(!t.do_guest_fault(0));
    t.invalidate_range(at(0x10_0000), 1).unwrap();
    assert!(!t.do_guest_fault(0x10_0010));
}

#[test]
fn pages_set_aside_for_the_nodes() {
    assert_eq!(Sv48x4::max_pte_pages(0), 3);
    assert_eq!(Sv48x4::max_pte_pages(1), 3);
    assert_eq!(Sv48x4::max_pte_pages(511), 3);
    assert_eq!(Sv48x4::max_pte_pages(512), 4);
    assert_eq!(Sv48x4::max_pte_pages(1024), 5);
    assert_eq!(Sv48x4::max_pte_pages(512 * 512), 513 + 2 + 1);
    assert_eq!(
        Sv48x4::max_pte_pages(u64::MAX),
        (u64::MAX / 512 + 1)
            + ((u64::MAX / 512 + 1) / 512 + 1)
            + (((u64::MAX / 512 + 1) / 512 + 1) / 512 + 1)
    );
}
