use sandbox_bridge::context::{ContextError, GuestContext, RegionView};
use sandbox_bridge::regions::{
    allocation_size, check_mapped, plan_regions, Access, Buffers, MapError, RegionRequest,
};

#[test]
fn allocation_adds_a_page_per_region_and_one() {
    let reqs = vec![
        RegionRequest { size: 6000, access: Access::ReadOnly },
        RegionRequest { size: 196, access: Access::ReadWrite },
    ];
    assert_eq!(allocation_size(&reqs, 4096), Some(6000 + 196 + 3 * 4096));
    assert_eq!(allocation_size(&vec![], 4096), Some(4096));
    let huge = vec![RegionRequest { size: i64::MAX - 10, access: Access::ReadOnly }];
    assert_eq!(allocation_size(&huge, 4096), None);
}

#[test]
fn plan_places_regions_on_pages() {
    let reqs = vec![
        RegionRequest { size: 6000, access: Access::ReadOnly },
        RegionRequest { size: 196, access: Access::ReadWrite },
    ];
    let base = 0x10000;
    let placed = plan_regions(base, 100, 4096, &reqs);
    assert_eq!(placed.len(), 2);
    assert_eq!(placed[0].host_address, 0x11000);
    assert_eq!(placed[0].guest_offset, 0x1000);
    assert_eq!(placed[0].access, Access::ReadOnly);
    // 0x11000 + 6000 = 0x12770, next page 0x13000.
    assert_eq!(placed[1].host_address, 0x13000);
    assert_eq!(placed[1].guest_offset, 0x3000);
    assert_eq!(placed[1].size, 196);
    let end = base + 100 + allocation_size(&reqs, 4096).unwrap();
    assert!(placed[1].host_address + 196 <= end);
}

#[test]
fn plan_keeps_aligned_start() {
    let reqs = vec![RegionRequest { size: 4096, access: Access::ReadWrite }];
    let placed = plan_regions(0x20000, 0x1000, 4096, &reqs);
    assert_eq!(placed[0].host_address, 0x21000);
}

#[test]
fn buffers_and_guest_config() {
    let b = Buffers::new(0x40000, 8, 4096, 6000, 196);
    assert_eq!(b.shared_ro.host_address, 0x41000);
    assert_eq!(b.shared_rw.host_address, 0x43000);
    assert_eq!(b.shared_ro.access, Access::ReadOnly);
    assert_eq!(b.shared_rw.access, Access::ReadWrite);
    let c = b.guest_config(8).unwrap();
    assert_eq!(c.ro_offset, 0x1000);
    assert_eq!(c.ro_size, 6000);
    assert_eq!(c.rw_offset, 0x3008);
    assert_eq!(c.rw_size, 188);
    assert!(b.guest_config(197).is_none());
    assert!(b.guest_config(-1).is_none());
}

#[test]
fn mapped_address_must_match() {
    assert_eq!(check_mapped(0x1000, 0x1000), Ok(()));
    assert_eq!(
        check_mapped(0x1000, 0x2000),
        Err(MapError::AddressMismatch { requested: 0x1000, actual: 0x2000 })
    );
}

#[test]
fn context_create_validates() {
    let ro = RegionView { offset: 4096, len: 6000 };
    let rw = RegionView { offset: 12296, len: 188 };
    let ctx = GuestContext::create(ro, rw, 65536).unwrap();
    assert_eq!(ctx.ro(), ro);
    assert_eq!(ctx.rw(), rw);
    assert_eq!(GuestContext::create(ro, rw, 12000).err(), Some(ContextError::OutOfBounds));
    let clash = RegionView { offset: 5000, len: 10 };
    assert_eq!(GuestContext::create(ro, clash, 65536).err(), Some(ContextError::Overlap));
}

#[test]
fn context_update_and_addresses() {
    let ro = RegionView { offset: 4096, len: 100 };
    let rw = RegionView { offset: 8192, len: 50 };
    let mut ctx = GuestContext::create(ro, rw, 65536).unwrap();
    assert_eq!(ctx.ro_address(0), Some(4096));
    assert_eq!(ctx.ro_address(99), Some(4195));
    assert_eq!(ctx.ro_address(100), None);
    assert_eq!(ctx.update(20480, 24576, 65536), Ok(()));
    assert_eq!(ctx.ro(), RegionView { offset: 20480, len: 100 });
    assert_eq!(ctx.rw_address(49), Some(24625));
    assert_eq!(ctx.rw_address(50), None);
    assert_eq!(ctx.update(65500, 0, 65536), Err(ContextError::OutOfBounds));
    assert_eq!(ctx.ro(), RegionView { offset: 20480, len: 100 });
}
