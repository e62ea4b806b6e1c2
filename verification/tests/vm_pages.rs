use guest_pages::hyp_alloc::HypPageAlloc;
use guest_pages::measure::{DataMeasure, PageLog};
use guest_pages::page::{
    AlignedPageAddr4k, Page, Page4k, PageAddr, PageOwnerId, PageSize2M, PhysAddr, UnmappedPage,
};
use guest_pages::page_table::{PageTableError, PlatformPageTable};
use guest_pages::page_tracking::{PageTrackingError, PhysPages};
use guest_pages::sequential_pages::SequentialPages;
use guest_pages::sv48x4::Sv48x4;
use guest_pages::vm_pages::{
    claim_page, reclaim_page, reclaim_pages, Error, GuestRootBuilder, HostRootBuilder, VmPages,
};

type Host = VmPages<Sv48x4, PageLog>;
type Guest = GuestRootBuilder<Sv48x4, PageLog>;

const MEM_BASE: u64 = 0x8000_0000;
const HOST_FRAMES: u64 = 0x8000_c000;
const HOST_GPA: u64 = 0x10_0000;
const HOST_PAGES: u64 = 1024;

fn at(a: u64) -> AlignedPageAddr4k {
    PageAddr::new(PhysAddr::new(a)).unwrap()
}

fn frame(a: u64) -> Page4k {
    Page4k::new(at(a))
}

fn host_frame(i: u64) -> u64 {
    HOST_FRAMES + i * 0x1000
}

fn boot_builder() -> (Vec<Page4k>, PhysPages, HostRootBuilder<Sv48x4, PageLog>) {
    let mem = HypPageAlloc::new(at(MEM_BASE), 2048).unwrap();
    let host_gpa_size = HOST_PAGES * 4096;
    assert!(HostRootBuilder::<Sv48x4, PageLog>::can_build_from(
        &mem,
        host_gpa_size
    ));
    let (mut ranges, phys, builder) =
        HostRootBuilder::<Sv48x4, PageLog>::from_hyp_mem(mem, host_gpa_size);
    assert_eq!(ranges.len(), 1);
    let pages = ranges.pop().unwrap().collect();
    (pages, phys, builder)
}

fn boot() -> (PhysPages, Host) {
    let (mut pages, mut phys, builder) = boot_builder();
    pages.truncate(HOST_PAGES as usize);
    let builder = builder
        .add_4k_pages(&mut phys, at(HOST_GPA), pages)
        .unwrap();
    (phys, builder.create_host().into_inner())
}

fn guest_with_ptes(phys: &mut PhysPages, host: &mut Host) -> (Guest, Page4k) {
    let (mut guest, state) = host.create_guest_root_builder(phys, at(HOST_GPA)).unwrap();
    host.add_pte_pages_builder(phys, at(HOST_GPA + 0x8000), 8, &mut guest)
        .unwrap();
    (guest, state)
}

#[test]
fn host_is_built_from_boot_memory() {
    let (pages, phys, builder) = boot_builder();
    assert_eq!(pages.len(), 2048 - 12);
    assert_eq!(pages[0].addr().bits(), HOST_FRAMES);
    assert_eq!(pages[2035].addr().bits(), MEM_BASE + 2047 * 0x1000);
    assert!(phys.tracks(at(MEM_BASE)));
    assert!(phys.tracks(at(MEM_BASE + 2047 * 0x1000)));
    assert!(!phys.tracks(at(MEM_BASE + 2048 * 0x1000)));
    assert_eq!(phys.owner(at(HOST_FRAMES)), Some(PageOwnerId::hypervisor()));
    let host = builder.create_host().into_inner();
    assert_eq!(host.page_owner_id(), PageOwnerId::host());
    assert_eq!(host.root().root_base(), MEM_BASE);
    assert_eq!(host.root().num_nodes(), 0);
    assert!(host.get_measurement().entries().is_empty());
}

#[test]
fn boot_memory_has_to_suffice() {
    let small = HypPageAlloc::new(at(MEM_BASE), 8).unwrap();
    assert!(!HostRootBuilder::<Sv48x4, PageLog>::can_build_from(
        &small,
        HOST_PAGES * 4096
    ));
    let exact = HypPageAlloc::new(at(MEM_BASE), 9).unwrap();
    assert!(HostRootBuilder::<Sv48x4, PageLog>::can_build_from(
        &exact,
        HOST_PAGES * 4096
    ));
    let shifted = HypPageAlloc::new(at(MEM_BASE + 0x1000), 11).unwrap();
    assert!(!HostRootBuilder::<Sv48x4, PageLog>::can_build_from(
        &shifted,
        HOST_PAGES * 4096
    ));
    let shifted = HypPageAlloc::new(at(MEM_BASE + 0x1000), 12).unwrap();
    assert!(HostRootBuilder::<Sv48x4, PageLog>::can_build_from(
        &shifted,
        HOST_PAGES * 4096
    ));
    let (ranges, _, _) = HostRootBuilder::<Sv48x4, PageLog>::from_hyp_mem(exact, HOST_PAGES * 4096);
    assert!(ranges.is_empty());
}

#[test]
fn host_pages_are_owned_and_mapped() {
    let (phys, host) = boot();
    assert_eq!(host.root().num_nodes(), 5);
    for i in [0u64, 1, 511, 512, 1023] {
        assert_eq!(
            host.root().translate(HOST_GPA + i * 0x1000),
            Some(host_frame(i))
        );
        assert_eq!(phys.owner(at(host_frame(i))), Some(PageOwnerId::host()));
        assert_eq!(phys.owner_depth(at(host_frame(i))), Some(2));
    }
    assert_eq!(host.root().translate(HOST_GPA + 1024 * 0x1000), None);
    assert_eq!(
        phys.owner(at(host_frame(1024))),
        Some(PageOwnerId::hypervisor())
    );
    assert!(host.get_measurement().entries().is_empty());
}

#[test]
fn host_data_pages_are_measured_in_order() {
    let (mut pages, mut phys, builder) = boot_builder();
    let zero = pages.split_off(8);
    let builder = builder.add_4k_data_pages(&mut phys, at(HOST_GPA), pages).unwrap();
    let mut zero = zero;
    zero.truncate(8);
    let builder = builder
        .add_4k_pages(&mut phys, at(HOST_GPA + 0x8000), zero)
        .unwrap();
    let more = vec![frame(host_frame(100)), frame(host_frame(101))];
    let builder = builder
        .add_4k_data_pages(&mut phys, at(HOST_GPA + 100 * 0x1000), more)
        .unwrap();
    let host = builder.create_host().into_inner();
    let mut want: Vec<(u64, u64)> = (0..8u64)
        .map(|i| (HOST_GPA + i * 0x1000, host_frame(i)))
        .collect();
    want.push((HOST_GPA + 100 * 0x1000, host_frame(100)));
    want.push((HOST_GPA + 101 * 0x1000, host_frame(101)));
    assert_eq!(host.get_measurement().entries(), &want);
    assert_eq!(host.root().translate(HOST_GPA + 0x9000), Some(host_frame(9)));
    assert_eq!(phys.owner(at(host_frame(9))), Some(PageOwnerId::host()));
}

#[test]
fn host_pages_have_to_agree_with_their_frames() {
    let (mut pages, mut phys, builder) = boot_builder();
    pages.truncate(4);
    match builder.add_4k_pages(&mut phys, at(HOST_GPA + 0x1000), pages) {
        Err(Error::UnalignedVmPages(a)) => assert_eq!(a.bits(), HOST_FRAMES),
        _ => panic!("mapped a frame out of place"),
    }
    assert_eq!(phys.owner(at(HOST_FRAMES)), Some(PageOwnerId::hypervisor()));
}

#[test]
fn host_builder_reports_what_fails() {
    let (mut pages, mut phys, builder) = boot_builder();
    pages.truncate(2);
    assert!(matches!(
        builder.add_4k_pages(&mut phys, at(0xffff_ffff_ffff_c000 + 0x3000), pages),
        Err(Error::InvalidRange) | Err(Error::UnalignedVmPages(_))
    ));

    let (_, mut phys, builder) = boot_builder();
    let stray = vec![frame(0x4000)];
    assert!(matches!(
        builder.add_4k_pages(&mut phys, at(HOST_GPA), stray),
        Err(Error::SettingOwner(PageTrackingError::InvalidAddr))
    ));

    let (mut pages, mut phys, builder) = boot_builder();
    pages.truncate(4);
    let builder = builder.add_4k_pages(&mut phys, at(HOST_GPA), pages).unwrap();
    match builder.add_4k_pages(&mut phys, at(HOST_GPA), vec![frame(host_frame(16))]) {
        Err(Error::Mapping4kPage(PageTableError::AlreadyMapped(p))) => {
            assert_eq!(p.addr().bits(), host_frame(16))
        }
        _ => panic!("mapped twice"),
    }
    assert_eq!(phys.owner(at(host_frame(16))), Some(PageOwnerId::host()));

    let (_, mut phys, builder) = boot_builder();
    let far: Vec<Page4k> = (0..6u64).map(|i| frame(host_frame(i * 512))).collect();
    let mut builder = builder;
    let mut failed = false;
    for (i, page) in far.into_iter().enumerate() {
        let gpa = (i as u64) * 0x80_0000_0000;
        match builder.add_4k_pages(&mut phys, at(gpa), vec![page]) {
            Ok(b) => builder = b,
            Err(e) => {
                assert_eq!(i, 1);
                assert!(matches!(e, Error::Mapping4kPage(PageTableError::NoPte(_))));
                failed = true;
                break;
            }
        }
    }
    assert!(failed);
}

#[test]
fn guest_is_created_from_six_host_pages() {
    let (mut phys, mut host) = boot();
    let (guest, state) = host
        .create_guest_root_builder(&mut phys, at(HOST_GPA))
        .unwrap();
    let id = guest.page_owner_id();
    assert_eq!(id.raw(), 2);
    assert_ne!(id, host.page_owner_id());
    assert!(phys.is_active_guest(id));
    assert_eq!(state.addr().bits(), host_frame(5));
    assert_eq!(guest.root().root_base(), host_frame(0));
    assert_eq!(guest.root().page_owner_id(), id);
    assert_eq!(guest.pte_pages_len(), 0);
    assert!(guest.get_measurement().entries().is_empty());
    for i in 0..6u64 {
        assert_eq!(host.root().translate(HOST_GPA + i * 0x1000), None);
        assert_eq!(phys.owner(at(host_frame(i))), Some(id));
        assert_eq!(phys.owner_depth(at(host_frame(i))), Some(3));
    }
    assert_eq!(host.root().translate(HOST_GPA + 0x6000), Some(host_frame(6)));
    assert_eq!(phys.owner(at(host_frame(6))), Some(PageOwnerId::host()));

    let (second, _) = host
        .create_guest_root_builder(&mut phys, at(HOST_GPA + 0x8000))
        .unwrap();
    assert_eq!(second.page_owner_id().raw(), 3);
}

#[test]
fn unaligned_guest_root_changes_nothing() {
    let (mut phys, mut host) = boot();
    for off in [0x1000u64, 0x2000, 0x3000] {
        match host.create_guest_root_builder(&mut phys, at(HOST_GPA + off)) {
            Err(Error::UnalignedVmPages(a)) => assert_eq!(a.bits(), HOST_GPA + off),
            _ => panic!("created a guest at an unaligned address"),
        }
    }
    for i in 0..8u64 {
        assert_eq!(
            host.root().translate(HOST_GPA + i * 0x1000),
            Some(host_frame(i))
        );
        assert_eq!(phys.owner(at(host_frame(i))), Some(PageOwnerId::host()));
    }
    assert!(!phys.is_active_guest(PageOwnerId::new(2).unwrap()));
    assert_eq!(phys.add_active_guest().unwrap().raw(), 2);
}

#[test]
fn guest_needs_an_id() {
    let (mut phys, mut host) = boot();
    for _ in 0..32 {
        phys.add_active_guest().unwrap();
    }
    assert!(matches!(
        host.create_guest_root_builder(&mut phys, at(HOST_GPA)),
        Err(Error::GuestId(PageTrackingError::TooManyGuests))
    ));
    assert_eq!(host.root().translate(HOST_GPA), Some(host_frame(0)));
    assert_eq!(phys.owner(at(host_frame(0))), Some(PageOwnerId::host()));
}

#[test]
fn guest_needs_six_mapped_pages() {
    let (mut phys, mut host) = boot();
    assert!(matches!(
        host.create_guest_root_builder(&mut phys, at(0xffff_ffff_ffff_c000)),
        Err(Error::InvalidRange)
    ));
    assert!(phys.is_active_guest(PageOwnerId::new(2).unwrap()));

    let last = HOST_GPA + (HOST_PAGES - 4) * 0x1000;
    assert!(matches!(
        host.create_guest_root_builder(&mut phys, at(last)),
        Err(Error::InvalidRange)
    ));
    assert!(phys.is_active_guest(PageOwnerId::new(3).unwrap()));
    for i in 0..4u64 {
        assert_eq!(host.root().translate(last + i * 0x1000), None);
        assert_eq!(
            phys.owner(at(host_frame(HOST_PAGES - 4 + i))),
            Some(PageOwnerId::host())
        );
    }
}

#[test]
fn guest_root_has_to_be_contiguous_in_memory() {
    let (_, mut phys, builder) = boot_builder();
    let scattered: Vec<Page4k> = [0u64, 1, 2, 7, 4, 5, 6, 3]
        .iter()
        .map(|i| frame(host_frame(*i)))
        .collect();
    let builder = builder
        .add_4k_pages(&mut phys, at(HOST_GPA), scattered)
        .unwrap();
    let mut host = builder.create_host().into_inner();
    assert!(matches!(
        host.create_guest_root_builder(&mut phys, at(HOST_GPA)),
        Err(Error::InvalidRange)
    ));
    let id = PageOwnerId::new(2).unwrap();
    for i in [0u64, 1, 2, 7, 4, 5] {
        assert_eq!(phys.owner(at(host_frame(i))), Some(id));
    }
    assert_eq!(phys.owner(at(host_frame(6))), Some(PageOwnerId::host()));
    assert_eq!(phys.owner(at(host_frame(3))), Some(PageOwnerId::host()));
}

#[test]
fn setting_up_a_guest_checks_each_page() {
    let mut phys = PhysPages::new(at(MEM_BASE), 64).unwrap();
    let id = phys.add_active_guest().unwrap();
    let five: Vec<UnmappedPage> = (0..5u64)
        .map(|i| UnmappedPage::new(frame(MEM_BASE + i * 0x1000)))
        .collect();
    assert!(matches!(
        Guest::from_setup_pages(&mut phys, id, five),
        Err(Error::InvalidRange)
    ));
    assert_eq!(phys.owner(at(MEM_BASE)), Some(PageOwnerId::hypervisor()));

    let mut six: Vec<UnmappedPage> = (0..5u64)
        .map(|i| UnmappedPage::new(frame(MEM_BASE + i * 0x1000)))
        .collect();
    six.insert(
        2,
        UnmappedPage::Page2M(Page::new(
            PageAddr::<PageSize2M>::new(PhysAddr::new(0x8020_0000)).unwrap(),
        )),
    );
    assert!(matches!(
        Guest::from_setup_pages(&mut phys, id, six),
        Err(Error::Non4kPteEntry)
    ));
    assert_eq!(phys.owner(at(MEM_BASE)), Some(id));
    assert_eq!(phys.owner(at(MEM_BASE + 0x1000)), Some(id));
    assert_eq!(
        phys.owner(at(MEM_BASE + 0x2000)),
        Some(PageOwnerId::hypervisor())
    );

    let stray: Vec<UnmappedPage> = (0..6u64)
        .map(|i| UnmappedPage::new(frame(0x1_0000 + i * 0x1000)))
        .collect();
    assert!(matches!(
        Guest::from_setup_pages(&mut phys, id, stray),
        Err(Error::SettingOwner(PageTrackingError::InvalidAddr))
    ));

    let good: Vec<UnmappedPage> = (0..6u64)
        .map(|i| UnmappedPage::new(frame(MEM_BASE + 0x8000 + i * 0x1000)))
        .collect();
    let (guest, state) = Guest::from_setup_pages(&mut phys, id, good).unwrap();
    assert_eq!(guest.page_owner_id(), id);
    assert_eq!(guest.root().root_base(), MEM_BASE + 0x8000);
    assert_eq!(state.addr().bits(), MEM_BASE + 0xd000);
    assert_eq!(phys.owner(at(MEM_BASE + 0xc000)), Some(id));
}

#[test]
fn donated_pte_pages_go_into_the_pool() {
    let (mut phys, mut host) = boot();
    let (mut guest, _) = host
        .create_guest_root_builder(&mut phys, at(HOST_GPA))
        .unwrap();
    let id = guest.page_owner_id();
    host.add_pte_pages_builder(&mut phys, at(HOST_GPA + 0x8000), 8, &mut guest)
        .unwrap();
    assert_eq!(guest.pte_pages_len(), 8);
    for i in 8..16u64 {
        assert_eq!(host.root().translate(HOST_GPA + i * 0x1000), None);
        assert_eq!(phys.owner(at(host_frame(i))), Some(id));
    }
    assert_eq!(host.root().translate(HOST_GPA + 0x7000), Some(host_frame(7)));
    assert_eq!(guest.pop_pte_page().unwrap().addr().bits(), host_frame(15));
    assert_eq!(guest.pop_pte_page().unwrap().addr().bits(), host_frame(14));
    assert_eq!(guest.pte_pages_len(), 6);

    host.add_pte_pages_builder(&mut phys, at(HOST_GPA + 0x8000), 8, &mut guest)
        .unwrap();
    assert_eq!(guest.pte_pages_len(), 6);
}

#[test]
fn donation_needs_a_range_of_the_table() {
    let (mut phys, mut host) = boot();
    let (mut guest, _) = host
        .create_guest_root_builder(&mut phys, at(HOST_GPA))
        .unwrap();
    assert!(matches!(
        host.add_pte_pages_builder(&mut phys, at(HOST_GPA + 0x9000), 4, &mut guest),
        Err(Error::InvalidRange)
    ));
    assert!(matches!(
        host.add_pte_pages_builder(&mut phys, at(HOST_GPA + 0x8000), u64::MAX, &mut guest),
        Err(Error::InvalidRange)
    ));
    assert!(matches!(
        host.add_4k_pages_builder(
            &mut phys,
            at(HOST_GPA + 0x9000),
            4,
            &mut guest,
            at(0x8000_0000),
            true
        ),
        Err(Error::InvalidRange)
    ));
    assert!(matches!(
        host.add_4k_pages_builder(
            &mut phys,
            at(HOST_GPA + 0x8000),
            4,
            &mut guest,
            at(0xffff_ffff_ffff_d000),
            true
        ),
        Err(Error::InvalidRange)
    ));
    assert!(matches!(
        host.remove_4k_pages(&mut phys, at(HOST_GPA + 0x9000), 4),
        Err(Error::InvalidRange)
    ));
    assert_eq!(guest.pte_pages_len(), 0);
    assert!(guest.get_measurement().entries().is_empty());
    for i in 8..16u64 {
        assert_eq!(
            host.root().translate(HOST_GPA + i * 0x1000),
            Some(host_frame(i))
        );
        assert_eq!(phys.owner(at(host_frame(i))), Some(PageOwnerId::host()));
    }
}

#[test]
fn pool_of_pte_pages_is_bounded() {
    let (mut phys, mut host) = boot();
    let (mut guest, _) = host
        .create_guest_root_builder(&mut phys, at(HOST_GPA))
        .unwrap();
    let id = guest.page_owner_id();
    assert!(matches!(
        host.add_pte_pages_builder(&mut phys, at(HOST_GPA + 0x8000), 513, &mut guest),
        Err(Error::InsufficientPtePageStorage)
    ));
    assert_eq!(guest.pte_pages_len(), 512);
    assert_eq!(phys.owner(at(host_frame(8 + 511))), Some(id));
    assert_eq!(phys.owner(at(host_frame(8 + 512))), Some(id));
    assert_eq!(host.root().translate(HOST_GPA + (8 + 512) * 0x1000), None);
    assert_eq!(
        host.root().translate(HOST_GPA + (8 + 513) * 0x1000),
        Some(host_frame(8 + 513))
    );
    assert!(matches!(
        guest.add_pte_page(frame(host_frame(900))),
        Err(Error::InsufficientPtePageStorage)
    ));
    assert_eq!(guest.pop_pte_page().unwrap().addr().bits(), host_frame(8 + 511));
    assert!(guest.add_pte_page(frame(host_frame(900))).is_ok());
}

#[test]
fn pte_page_comes_back_from_the_pool() {
    let (mut phys, mut host) = boot();
    let (mut guest, _) = guest_with_ptes(&mut phys, &mut host);
    guest.add_pte_page(frame(host_frame(700))).unwrap();
    assert_eq!(guest.pte_pages_len(), 9);
    assert_eq!(guest.pop_pte_page().unwrap().addr().bits(), host_frame(700));
    assert_eq!(guest.pte_pages_len(), 8);
    assert_eq!(guest.pop_pte_page().unwrap().addr().bits(), host_frame(15));
}

#[test]
fn measurement_is_that_of_the_data_pages() {
    let (mut phys, mut host) = boot();
    let (mut guest, _) = guest_with_ptes(&mut phys, &mut host);
    guest.add_data_page(0x8000_0000, frame(host_frame(100))).unwrap();
    guest.add_zero_page(0x8000_1000, frame(host_frame(101))).unwrap();
    guest.add_zero_page(0x8000_2000, frame(host_frame(102))).unwrap();
    guest.add_data_page(0x8000_3000, frame(host_frame(103))).unwrap();
    guest.add_data_page(0x7000_0000, frame(host_frame(104))).unwrap();
    guest.add_zero_page(0x7000_1000, frame(host_frame(105))).unwrap();
    assert_eq!(
        guest.get_measurement().entries(),
        &vec![
            (0x8000_0000, host_frame(100)),
            (0x8000_3000, host_frame(103)),
            (0x7000_0000, host_frame(104)),
        ]
    );
    assert_eq!(guest.pte_pages_len(), 8 - 5);
    let vm = guest.create_pages();
    assert_eq!(vm.page_owner_id().raw(), 2);
    assert_eq!(vm.get_measurement().entries().len(), 3);
    for (gpa, i) in [
        (0x8000_0000u64, 100u64),
        (0x8000_1000, 101),
        (0x8000_2000, 102),
        (0x8000_3000, 103),
        (0x7000_0000, 104),
        (0x7000_1000, 105),
    ] {
        assert_eq!(vm.root().translate(gpa), Some(host_frame(i)));
    }
}

#[test]
fn page_that_is_not_mapped_is_measured_all_the_same() {
    let (mut phys, mut host) = boot();
    let (mut guest, _) = host
        .create_guest_root_builder(&mut phys, at(HOST_GPA))
        .unwrap();
    match guest.add_data_page(0x8000_0000, frame(host_frame(100))) {
        Err(Error::Mapping4kPage(PageTableError::NoPte(p))) => {
            assert_eq!(p.addr().bits(), host_frame(100))
        }
        _ => panic!("mapped without pages for the nodes"),
    }
    assert_eq!(
        guest.get_measurement().entries(),
        &vec![(0x8000_0000, host_frame(100))]
    );
    assert!(matches!(
        guest.add_zero_page(0x8000_0000, frame(host_frame(100))),
        Err(Error::Mapping4kPage(PageTableError::NoPte(_)))
    ));
    assert!(matches!(
        guest.add_zero_page(0x8000_0001, frame(host_frame(100))),
        Err(Error::Mapping4kPage(PageTableError::Unaligned(_)))
    ));
    assert_eq!(guest.get_measurement().entries().len(), 1);
    assert_eq!(guest.root().translate(0x8000_0000), None);

    host.add_pte_pages_builder(&mut phys, at(HOST_GPA + 0x8000), 4, &mut guest)
        .unwrap();
    guest.add_zero_page(0x8000_0000, frame(host_frame(100))).unwrap();
    assert!(matches!(
        guest.add_data_page(0x8000_0000, frame(host_frame(101))),
        Err(Error::Mapping4kPage(PageTableError::AlreadyMapped(_)))
    ));
    assert_eq!(guest.get_measurement().entries().len(), 2);
    assert_eq!(guest.root().translate(0x8000_0000), Some(host_frame(100)));
}

#[test]
fn donated_data_pages_are_mapped_and_measured() {
    let (mut phys, mut host) = boot();
    let (mut guest, _) = guest_with_ptes(&mut phys, &mut host);
    let id = guest.page_owner_id();
    assert_eq!(
        host.add_4k_pages_builder(
            &mut phys,
            at(HOST_GPA + 0x10_0000),
            4,
            &mut guest,
            at(0x8000_0000),
            true
        )
        .unwrap(),
        4
    );
    assert_eq!(
        host.add_4k_pages_builder(
            &mut phys,
            at(HOST_GPA + 0x10_4000),
            4,
            &mut guest,
            at(0x8000_4000),
            false
        )
        .unwrap(),
        4
    );
    let want: Vec<(u64, u64)> = (0..4u64)
        .map(|i| (0x8000_0000 + i * 0x1000, host_frame(256 + i)))
        .collect();
    assert_eq!(guest.get_measurement().entries(), &want);
    for i in 0..8u64 {
        assert_eq!(
            guest.root().translate(0x8000_0000 + i * 0x1000),
            Some(host_frame(256 + i))
        );
        assert_eq!(host.root().translate(HOST_GPA + (256 + i) * 0x1000), None);
        assert_eq!(phys.owner(at(host_frame(256 + i))), Some(id));
    }
    assert_eq!(guest.pte_pages_len(), 5);
}

#[test]
fn donation_stops_at_the_first_page_that_fails() {
    let (mut phys, mut host) = boot();
    let (mut guest, _) = guest_with_ptes(&mut phys, &mut host);
    let id = guest.page_owner_id();
    guest.add_zero_page(0x8000_2000, frame(host_frame(900))).unwrap();
    assert!(matches!(
        host.add_4k_pages_builder(
            &mut phys,
            at(HOST_GPA + 0x10_0000),
            4,
            &mut guest,
            at(0x8000_0000),
            true
        ),
        Err(Error::Mapping4kPage(PageTableError::AlreadyMapped(_)))
    ));
    assert_eq!(guest.root().translate(0x8000_0000), Some(host_frame(256)));
    assert_eq!(guest.root().translate(0x8000_1000), Some(host_frame(257)));
    assert_eq!(guest.root().translate(0x8000_2000), Some(host_frame(900)));
    assert_eq!(guest.root().translate(0x8000_3000), None);
    assert_eq!(guest.get_measurement().entries().len(), 3);
    assert_eq!(phys.owner(at(host_frame(258))), Some(id));
    assert_eq!(phys.owner(at(host_frame(259))), Some(PageOwnerId::host()));
    for i in 0..4u64 {
        assert_eq!(host.root().translate(HOST_GPA + (256 + i) * 0x1000), None);
    }
}

#[test]
fn pages_go_back_to_the_owner_before() {
    let (mut phys, mut host) = boot();
    assert_eq!(
        host.remove_4k_pages(&mut phys, at(HOST_GPA + 0x8000), 4).unwrap(),
        4
    );
    for i in 8..12u64 {
        assert_eq!(host.root().translate(HOST_GPA + i * 0x1000), None);
        assert!(!host.root().has_entry(HOST_GPA + i * 0x1000));
        assert_eq!(
            phys.owner(at(host_frame(i))),
            Some(PageOwnerId::hypervisor())
        );
        assert_eq!(phys.owner_depth(at(host_frame(i))), Some(1));
    }
    assert_eq!(phys.owner(at(host_frame(7))), Some(PageOwnerId::host()));
    assert_eq!(phys.owner(at(host_frame(12))), Some(PageOwnerId::host()));
    assert_eq!(
        host.remove_4k_pages(&mut phys, at(HOST_GPA + 0x8000), 4).unwrap(),
        4
    );
    assert_eq!(phys.owner_depth(at(host_frame(8))), Some(1));
}

#[test]
fn donated_pages_cannot_be_given_back_by_the_donor() {
    let (mut phys, mut host) = boot();
    let (guest, _) = host
        .create_guest_root_builder(&mut phys, at(HOST_GPA))
        .unwrap();
    let id = guest.page_owner_id();
    match host.remove_4k_pages(&mut phys, at(HOST_GPA), 6) {
        Err(Error::UnownedPage(a)) => assert_eq!(a.bits(), host_frame(0)),
        _ => panic!("gave back pages of a guest"),
    }
    assert_eq!(phys.owner(at(host_frame(0))), Some(PageOwnerId::host()));
    assert_eq!(phys.owner(at(host_frame(1))), Some(id));
    for i in 0..6u64 {
        assert!(!host.root().has_entry(HOST_GPA + i * 0x1000));
    }
}

#[test]
fn giving_back_checks_each_page() {
    let mut phys = PhysPages::new(at(MEM_BASE), 16).unwrap();
    let me = PageOwnerId::new(2).unwrap();
    let other = PageOwnerId::new(3).unwrap();
    phys.set_page_owner(at(MEM_BASE), me).unwrap();
    phys.set_page_owner(at(MEM_BASE + 0x1000), me).unwrap();
    phys.set_page_owner(at(MEM_BASE + 0x2000), other).unwrap();

    assert!(reclaim_page(&mut phys, me, UnmappedPage::new(frame(MEM_BASE))).is_ok());
    assert_eq!(phys.owner(at(MEM_BASE)), Some(PageOwnerId::hypervisor()));
    match reclaim_page(&mut phys, me, UnmappedPage::new(frame(MEM_BASE))) {
        Err(Error::UnownedPage(a)) => assert_eq!(a.bits(), MEM_BASE),
        _ => panic!("gave back a page of the hypervisor"),
    }
    match reclaim_page(&mut phys, me, UnmappedPage::new(frame(0x3000))) {
        Err(Error::UnownedPage(a)) => assert_eq!(a.bits(), 0x3000),
        _ => panic!("gave back an unknown page"),
    }
    let mega = UnmappedPage::Page2M(Page::new(
        PageAddr::<PageSize2M>::new(PhysAddr::new(0x8020_0000)).unwrap(),
    ));
    assert!(matches!(
        reclaim_page(&mut phys, me, mega),
        Err(Error::Non4kPteEntry)
    ));

    let pages = vec![
        UnmappedPage::new(frame(MEM_BASE + 0x1000)),
        UnmappedPage::new(frame(MEM_BASE + 0x2000)),
        UnmappedPage::new(frame(MEM_BASE + 0x3000)),
    ];
    match reclaim_pages(&mut phys, me, pages) {
        Err(Error::UnownedPage(a)) => assert_eq!(a.bits(), MEM_BASE + 0x2000),
        _ => panic!("gave back a page of another guest"),
    }
    assert_eq!(
        phys.owner(at(MEM_BASE + 0x1000)),
        Some(PageOwnerId::hypervisor())
    );
    assert_eq!(
        phys.owner(at(MEM_BASE + 0x2000)),
        Some(PageOwnerId::hypervisor())
    );
    assert!(reclaim_pages(&mut phys, me, Vec::new()).is_ok());
}

#[test]
fn claiming_checks_the_page() {
    let mut phys = PhysPages::new(at(MEM_BASE), 16).unwrap();
    let id = PageOwnerId::new(2).unwrap();
    let p = claim_page(&mut phys, UnmappedPage::new(frame(MEM_BASE + 0x1000)), id).unwrap();
    assert_eq!(p.addr().bits(), MEM_BASE + 0x1000);
    assert_eq!(phys.owner(at(MEM_BASE + 0x1000)), Some(id));
    let mega = UnmappedPage::Page2M(Page::new(
        PageAddr::<PageSize2M>::new(PhysAddr::new(0x8020_0000)).unwrap(),
    ));
    assert!(matches!(
        claim_page(&mut phys, mega, id),
        Err(Error::Non4kPteEntry)
    ));
    assert!(matches!(
        claim_page(&mut phys, UnmappedPage::new(frame(0x1000)), id),
        Err(Error::SettingOwner(PageTrackingError::InvalidAddr))
    ));
    claim_page(&mut phys, UnmappedPage::new(frame(MEM_BASE + 0x1000)), id).unwrap();
    claim_page(&mut phys, UnmappedPage::new(frame(MEM_BASE + 0x1000)), id).unwrap();
    assert!(matches!(
        claim_page(&mut phys, UnmappedPage::new(frame(MEM_BASE + 0x1000)), id),
        Err(Error::SettingOwner(PageTrackingError::OwnerStackFull))
    ));
}

#[test]
fn fault_is_handled_where_the_table_resolves_it() {
    let (_, mut host) = boot();
    assert!(host.handle_page_fault(HOST_GPA).is_ok());
    assert!(host.handle_page_fault(HOST_GPA + 0x1234).is_ok());
    assert!(matches!(
        host.handle_page_fault(0x5000_0000),
        Err(Error::PageFaultHandling)
    ));
    assert!(matches!(
        host.handle_page_fault(HOST_GPA - 1),
        Err(Error::PageFaultHandling)
    ));
}

#[test]
fn released_guest_is_no_longer_alive() {
    let (mut phys, mut host) = boot();
    let (guest, _) = guest_with_ptes(&mut phys, &mut host);
    let (other, _) = host
        .create_guest_root_builder(&mut phys, at(HOST_GPA + 0x10_0000))
        .unwrap();
    let id = guest.page_owner_id();
    let other_id = other.page_owner_id();
    let vm = guest.create_pages();
    assert!(phys.is_active_guest(id));
    vm.release(&mut phys);
    assert!(!phys.is_active_guest(id));
    assert!(phys.is_active_guest(other_id));
    assert_eq!(phys.owner(at(host_frame(0))), Some(id));
    assert_eq!(phys.add_active_guest().unwrap().raw(), 4);
}

#[test]
fn log_measure_keeps_the_pages_in_order() {
    let mut m = PageLog::default();
    assert!(m.entries().is_empty());
    m.add_page(0x2000, &frame(0x9000));
    m.add_page(0x1000, &frame(0x8000));
    m.add_page(0x2000, &frame(0x9000));
    assert_eq!(
        m.entries(),
        &vec![(0x2000, 0x9000), (0x1000, 0x8000), (0x2000, 0x9000)]
    );
}

#[test]
fn single_page_range_backs_the_pool() {
    let root = Sv48x4::new(
        SequentialPages::from_mem_range(at(MEM_BASE), 4),
        PageOwnerId::new(9).unwrap(),
    )
    .unwrap();
    let mut guest = Guest::new(root, frame(MEM_BASE + 0x4000));
    assert_eq!(guest.page_owner_id().raw(), 9);
    assert_eq!(guest.pte_pages_len(), 0);
    assert!(guest.pop_pte_page().is_none());
    guest.add_pte_page(frame(MEM_BASE + 0x5000)).unwrap();
    assert_eq!(guest.pte_pages_len(), 1);
}
