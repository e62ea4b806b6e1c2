use guest_pages::page::{
    Page, Page4k, PageAddr, PageOwnerId, PageSize2M, PageSize4k, PhysAddr, UnmappedPage,
};
use guest_pages::sequential_pages::SequentialPages;

fn page_at(addr: u64) -> Page4k {
    Page4k::new(PageAddr::new(PhysAddr::new(addr)).unwrap())
}

fn pages_at(addrs: &[u64]) -> Vec<Page4k> {
    addrs.iter().map(|a| page_at(*a)).collect()
}

fn addrs_of(pages: Vec<Page4k>) -> Vec<u64> {
    pages.into_iter().map(|p| p.addr().bits()).collect()
}

#[test]
fn create_success() {
    let pages = vec![
        Page4k::new(PageAddr::new(PhysAddr::new(0x1000)).unwrap()),
        Page4k::new(PageAddr::new(PhysAddr::new(0x2000)).unwrap()),
        Page4k::new(PageAddr::new(PhysAddr::new(0x3000)).unwrap()),
        Page4k::new(PageAddr::new(PhysAddr::new(0x4000)).unwrap()),
    ];

    assert!(SequentialPages::from_pages(pages).is_ok());
}

#[test]
fn create_failure() {
    let pages = vec![
        Page4k::new(PageAddr::new(PhysAddr::new(0x1000)).unwrap()),
        Page4k::new(PageAddr::new(PhysAddr::new(0x2000)).unwrap()),
        Page4k::new(PageAddr::new(PhysAddr::new(0x4000)).unwrap()),
        Page4k::new(PageAddr::new(PhysAddr::new(0x5000)).unwrap()),
    ];
    let result = SequentialPages::from_pages(pages);
    match result {
        Ok(_) => panic!("didn't fail with non-sequential pages"),
        Err(returned_pages) => {
            assert_eq!(returned_pages.into_iter().count(), 4);
        }
    }
}

#[test]
fn create_fail_empty() {
    let pages: Vec<Page4k> = vec![];
    let result = SequentialPages::from_pages(pages);
    match result {
        Ok(_) => panic!("didn't fail with empty pages"),
        Err(returned_pages) => assert!(returned_pages.into_iter().next().is_none()),
    }
}

#[test]
fn from_single() {
    let p = Page4k::new(PageAddr::new(PhysAddr::new(0x1000)).unwrap());
    let seq = SequentialPages::from(p);
    let mut pages = seq.into_iter();
    assert_eq!(0x1000, pages.next().unwrap().addr().bits());
    assert!(pages.next().is_none());
}

#[test]
fn unsafe_range() {
    let seq = SequentialPages::<PageSize4k>::from_mem_range(
        PageAddr::new(PhysAddr::new(0x1000)).unwrap(),
        4,
    );
    let mut pages = seq.into_iter();
    assert_eq!(0x1000, pages.next().unwrap().addr().bits());
    assert_eq!(0x2000, pages.next().unwrap().addr().bits());
    assert_eq!(0x3000, pages.next().unwrap().addr().bits());
    assert_eq!(0x4000, pages.next().unwrap().addr().bits());
    assert!(pages.next().is_none());
}

#[test]
fn consecutive_pages_form_a_range() {
    let seq = SequentialPages::from_pages(pages_at(&[0x1000, 0x2000, 0x3000, 0x4000])).unwrap();
    assert_eq!(seq.base(), 0x1000);
    assert_eq!(seq.count(), 4);
    assert_eq!(seq.length_bytes(), 0x4000);
    assert_eq!(
        addrs_of(seq.into_iter().collect()),
        vec![0x1000, 0x2000, 0x3000, 0x4000]
    );
}

#[test]
fn rejected_pages_come_back_in_order() {
    let returned = SequentialPages::from_pages(pages_at(&[0x1000, 0x2000, 0x4000, 0x5000]))
        .unwrap_err();
    assert_eq!(addrs_of(returned), vec![0x1000, 0x2000, 0x4000, 0x5000]);
}

#[test]
fn descending_pages_are_rejected() {
    let returned = SequentialPages::from_pages(pages_at(&[0x2000, 0x1000])).unwrap_err();
    assert_eq!(addrs_of(returned), vec![0x2000, 0x1000]);
}

#[test]
fn repeated_page_is_rejected() {
    let returned = SequentialPages::from_pages(pages_at(&[0x2000, 0x2000])).unwrap_err();
    assert_eq!(addrs_of(returned), vec![0x2000, 0x2000]);
}

#[test]
fn range_beyond_address_space_is_rejected() {
    let top = 0xffff_ffff_ffff_f000u64;
    let returned = SequentialPages::from_pages(pages_at(&[top - 0x1000, top, 0])).unwrap_err();
    assert_eq!(addrs_of(returned), vec![top - 0x1000, top, 0]);
}

#[test]
fn range_may_end_with_the_top_page() {
    let top = 0xffff_ffff_ffff_f000u64;
    let seq = SequentialPages::from_pages(pages_at(&[top - 0x1000, top])).unwrap();
    assert_eq!(seq.base(), top - 0x1000);
    assert_eq!(seq.length_bytes(), 0x2000);
    assert_eq!(addrs_of(seq.into_iter().collect()), vec![top - 0x1000, top]);
}

#[test]
fn single_top_page_is_a_range() {
    let top = 0xffff_ffff_ffff_f000u64;
    let seq = SequentialPages::from(page_at(top));
    assert_eq!(seq.base(), top);
    assert_eq!(seq.count(), 1);
    let mut pages = seq.into_iter();
    assert_eq!(pages.next().unwrap().addr().bits(), top);
    assert!(pages.next().is_none());
    assert!(pages.next().is_none());
}

#[test]
fn joining_the_pages_of_a_range_gives_it_back() {
    let seq = SequentialPages::<PageSize4k>::from_mem_range(
        PageAddr::new(PhysAddr::new(0x8000_0000)).unwrap(),
        17,
    );
    let again = SequentialPages::from_pages(seq.into_iter().collect()).unwrap();
    assert_eq!(again.base(), 0x8000_0000);
    assert_eq!(again.count(), 17);
    assert_eq!(again.length_bytes(), 17 * 4096);
}

#[test]
fn frames_of_a_range_are_aligned_and_distinct() {
    let seq = SequentialPages::<PageSize4k>::from_mem_range(
        PageAddr::new(PhysAddr::new(0x10000)).unwrap(),
        8,
    );
    let addrs = addrs_of(seq.into_iter().collect());
    assert_eq!(addrs.len(), 8);
    for (i, a) in addrs.iter().enumerate() {
        assert_eq!(*a, 0x10000 + (i as u64) * 0x1000);
        assert_eq!(*a % 0x1000, 0);
        for b in addrs.iter().skip(i + 1) {
            assert_ne!(a, b);
        }
    }
}

#[test]
fn empty_range_has_no_pages() {
    let seq = SequentialPages::<PageSize4k>::empty();
    assert_eq!(seq.base(), 0);
    assert_eq!(seq.count(), 0);
    assert_eq!(seq.length_bytes(), 0);
    assert!(seq.into_iter().next().is_none());
}

#[test]
fn range_of_megapages() {
    let seq = SequentialPages::<PageSize2M>::from_mem_range(
        PageAddr::new(PhysAddr::new(0x4000_0000)).unwrap(),
        3,
    );
    assert_eq!(seq.length_bytes(), 0x60_0000);
    let addrs: Vec<u64> = seq
        .into_iter()
        .collect()
        .into_iter()
        .map(|p| p.addr().bits())
        .collect();
    assert_eq!(addrs, vec![0x4000_0000, 0x4020_0000, 0x4040_0000]);
}

#[test]
fn page_addr_has_to_be_aligned() {
    assert!(PageAddr::<PageSize4k>::new(PhysAddr::new(0x1001)).is_none());
    assert!(PageAddr::<PageSize4k>::new(PhysAddr::new(0xfff)).is_none());
    assert_eq!(
        PageAddr::<PageSize4k>::new(PhysAddr::new(0)).unwrap().bits(),
        0
    );
    assert!(PageAddr::<PageSize2M>::new(PhysAddr::new(0x1000)).is_none());
    assert_eq!(
        PageAddr::<PageSize2M>::new(PhysAddr::new(0x20_0000))
            .unwrap()
            .bits(),
        0x20_0000
    );
}

#[test]
fn checked_add_pages_stops_at_the_top() {
    let a = PageAddr::<PageSize4k>::new(PhysAddr::new(0x1000)).unwrap();
    assert_eq!(a.checked_add_pages(0).unwrap().bits(), 0x1000);
    assert_eq!(a.checked_add_pages(3).unwrap().bits(), 0x4000);
    let top = PageAddr::<PageSize4k>::new(PhysAddr::new(0xffff_ffff_ffff_f000)).unwrap();
    assert_eq!(top.checked_add_pages(0).unwrap().bits(), 0xffff_ffff_ffff_f000);
    assert!(top.checked_add_pages(1).is_none());
    assert!(a.checked_add_pages(u64::MAX).is_none());
    assert!(a.checked_add_pages(1 << 52).is_none());
}

#[test]
fn unmapped_page_is_told_apart_by_size() {
    let small = UnmappedPage::new(page_at(0x3000));
    assert_eq!(small.addr_bits(), 0x3000);
    assert_eq!(small.ok4k_or(7u8).unwrap().addr().bits(), 0x3000);
    let mega = UnmappedPage::Page2M(Page::new(
        PageAddr::<PageSize2M>::new(PhysAddr::new(0x20_0000)).unwrap(),
    ));
    assert_eq!(mega.addr_bits(), 0x20_0000);
    assert_eq!(mega.ok4k_or(7u8).unwrap_err(), 7);
    assert_eq!(
        UnmappedPage::new(page_at(0x5000)).unwrap_4k().addr().bits(),
        0x5000
    );
}

#[test]
fn owner_ids_of_hypervisor_and_host_are_reserved() {
    assert_eq!(PageOwnerId::hypervisor().raw(), 0);
    assert_eq!(PageOwnerId::host().raw(), 1);
    assert!(PageOwnerId::new(0).is_none());
    assert!(PageOwnerId::new(1).is_none());
    assert_eq!(PageOwnerId::new(2).unwrap().raw(), 2);
    assert_eq!(PageOwnerId::new(u64::MAX).unwrap().raw(), u64::MAX);
    assert_ne!(PageOwnerId::hypervisor(), PageOwnerId::host());
}
