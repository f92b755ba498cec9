use rcore_os::memory::{ceil_vpn, floor_vpn, page_offset, MapArea, MapPermission, MemorySet, PAGE_SIZE};
use rcore_os::syscall_process::{sys_mmap, sys_munmap};

fn rw() -> MapPermission {
    MapPermission { readable: true, writable: true, executable: false, user: true }
}

fn mapped(ms: &MemorySet, vpn: usize) -> bool {
    ms.contains_vpn(vpn)
}

#[test]
fn mmap_rejects_bad_arguments() {
    let mut ms = MemorySet::new(7);
    assert_eq!(sys_mmap(&mut ms, 0x1001, PAGE_SIZE, 3), -1);
    assert_eq!(sys_mmap(&mut ms, 0x1000, PAGE_SIZE, 0), -1);
    assert_eq!(sys_mmap(&mut ms, 0x1000, PAGE_SIZE, 8), -1);
    assert_eq!(sys_mmap(&mut ms, 0x1000, PAGE_SIZE, 0xf), -1);
    assert!(ms.areas.is_empty());
}

#[test]
fn mmap_zero_length_succeeds_without_mapping() {
    let mut ms = MemorySet::new(7);
    assert_eq!(sys_mmap(&mut ms, 0x1000, 0, 1), 0);
    assert!(ms.areas.is_empty());
}

#[test]
fn mmap_maps_rounded_up_range_with_permissions() {
    let mut ms = MemorySet::new(7);
    assert_eq!(sys_mmap(&mut ms, 0x10000, PAGE_SIZE + 1, 0b101), 0);
    assert_eq!(
        ms.areas,
        vec![MapArea {
            start_vpn: 0x10,
            end_vpn: 0x12,
            perm: MapPermission { readable: true, writable: false, executable: true, user: true },
        }]
    );
    assert!(mapped(&ms, 0x10));
    assert!(mapped(&ms, 0x11));
    assert!(!mapped(&ms, 0x12));
    assert_eq!(ms.token(), 7);
}

#[test]
fn mmap_refuses_only_shared_pages() {
    let mut ms = MemorySet::new(0);
    assert_eq!(sys_mmap(&mut ms, 0x10000, 2 * PAGE_SIZE, 3), 0);
    // overlapping
    assert_eq!(sys_mmap(&mut ms, 0x11000, PAGE_SIZE, 3), -1);
    assert_eq!(sys_mmap(&mut ms, 0xf000, 2 * PAGE_SIZE, 3), -1);
    // directly after and directly before the area
    assert_eq!(sys_mmap(&mut ms, 0x12000, PAGE_SIZE, 3), 0);
    assert_eq!(sys_mmap(&mut ms, 0xf000, PAGE_SIZE, 3), 0);
    // with a gap
    assert_eq!(sys_mmap(&mut ms, 0x14000, PAGE_SIZE, 3), 0);
    assert_eq!(ms.areas.len(), 4);
}

#[test]
fn remap_the_hole_after_munmap() {
    let mut ms = MemorySet::new(0);
    assert_eq!(sys_mmap(&mut ms, 0x10000, 3 * PAGE_SIZE, 3), 0);
    assert_eq!(sys_munmap(&mut ms, 0x11000, PAGE_SIZE), 0);
    assert!(!mapped(&ms, 0x11));
    assert_eq!(sys_mmap(&mut ms, 0x11000, PAGE_SIZE, 1), 0);
    assert!(mapped(&ms, 0x11));
}

#[test]
fn munmap_undoes_mmap() {
    let mut ms = MemorySet::new(0);
    assert_eq!(sys_mmap(&mut ms, 0x20000, 3 * PAGE_SIZE, 3), 0);
    assert_eq!(sys_munmap(&mut ms, 0x20000, 3 * PAGE_SIZE), 0);
    for vpn in 0x1f..0x24 {
        assert!(!mapped(&ms, vpn));
    }
    assert!(ms.areas.is_empty());
}

#[test]
fn munmap_middle_splits_the_area() {
    let mut ms = MemorySet::new(0);
    ms.insert_framed_area(0x10, 0x20, rw());
    assert_eq!(sys_munmap(&mut ms, 0x14000, 2 * PAGE_SIZE), 0);
    assert_eq!(
        ms.areas,
        vec![
            MapArea { start_vpn: 0x10, end_vpn: 0x14, perm: rw() },
            MapArea { start_vpn: 0x16, end_vpn: 0x20, perm: rw() },
        ]
    );
    assert!(mapped(&ms, 0x13));
    assert!(!mapped(&ms, 0x14));
    assert!(!mapped(&ms, 0x15));
    assert!(mapped(&ms, 0x16));
}

#[test]
fn munmap_errors() {
    let mut ms = MemorySet::new(0);
    ms.insert_framed_area(0x10, 0x12, rw());
    assert_eq!(sys_munmap(&mut ms, 0x10001, PAGE_SIZE), -1);
    assert_eq!(sys_munmap(&mut ms, 0x10000, 0), 0);
    // the range reaches an unmapped page
    assert_eq!(sys_munmap(&mut ms, 0x11000, 2 * PAGE_SIZE), -1);
    assert_eq!(ms.areas, vec![MapArea { start_vpn: 0x10, end_vpn: 0x12, perm: rw() }]);
}

#[test]
fn page_arithmetic() {
    assert_eq!(floor_vpn(0x1fff), 1);
    assert_eq!(ceil_vpn(0x1fff), 2);
    assert_eq!(ceil_vpn(0x2000), 2);
    assert_eq!(ceil_vpn(0), 0);
    assert_eq!(page_offset(0x1234), 0x234);
}

#[test]
fn copied_address_space_keeps_areas() {
    let mut ms = MemorySet::new(1);
    ms.insert_framed_area(0x10, 0x12, rw());
    let copy = MemorySet::from_existed_user(&ms, 2);
    assert_eq!(copy.areas, ms.areas);
    assert_eq!(copy.token, 2);
}
