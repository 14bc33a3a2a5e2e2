use rcore_syscalls::memory::{AddressSpace, PAGE_SIZE};
use rcore_syscalls::process::Process;

fn fresh() -> Process {
    Process::new(1)
}

#[test]
fn mmap_rejects_unaligned_start() {
    let mut p = fresh();
    assert_eq!(p.sys_mmap(0x1001, 0x1000, 3), -1);
    assert!(!p.memory.is_mapped(1));
}

#[test]
fn mmap_rejects_bad_port() {
    let mut p = fresh();
    assert_eq!(p.sys_mmap(0x1000, 0x1000, 0), -1);
    assert_eq!(p.sys_mmap(0x1000, 0x1000, 8), -1);
    assert_eq!(p.sys_mmap(0x1000, 0x1000, 0xf), -1);
    assert!(!p.memory.is_mapped(1));
}

#[test]
fn mmap_zero_length_succeeds_without_mapping() {
    let mut p = fresh();
    assert_eq!(p.sys_mmap(0x1000, 0, 3), 0);
    assert!(!p.memory.is_mapped(1));
}

#[test]
fn mmap_maps_every_page_of_the_range() {
    let mut p = fresh();
    assert_eq!(p.sys_mmap(0x1000, 0x2000, 3), 0);
    assert!(!p.memory.is_mapped(0));
    assert!(p.memory.is_mapped(1));
    assert!(p.memory.is_mapped(2));
    assert!(!p.memory.is_mapped(3));
}

#[test]
fn mmap_rounds_length_up_to_whole_pages() {
    let mut p = fresh();
    assert_eq!(p.sys_mmap(0x10000, 1, 1), 0);
    assert!(p.memory.is_mapped(0x10));
    assert!(!p.memory.is_mapped(0x11));
    assert_eq!(p.sys_mmap(0x20000, PAGE_SIZE + 1, 1), 0);
    assert!(p.memory.is_mapped(0x20));
    assert!(p.memory.is_mapped(0x21));
    assert!(!p.memory.is_mapped(0x22));
}

#[test]
fn mmap_refuses_overlap_and_changes_nothing() {
    let mut p = fresh();
    assert_eq!(p.sys_mmap(0x2000, 0x1000, 3), 0);
    assert_eq!(p.sys_mmap(0x1000, 0x3000, 3), -1);
    assert!(!p.memory.is_mapped(1));
    assert!(p.memory.is_mapped(2));
    assert!(!p.memory.is_mapped(3));
}

#[test]
fn mmap_twice_on_same_range_is_refused() {
    let mut p = fresh();
    assert_eq!(p.sys_mmap(0x5000, 0x1000, 7), 0);
    assert_eq!(p.sys_mmap(0x5000, 0x1000, 1), -1);
}

#[test]
fn munmap_rejects_unaligned_start() {
    let mut p = fresh();
    assert_eq!(p.sys_mmap(0x1000, 0x1000, 3), 0);
    assert_eq!(p.sys_munmap(0x1800, 0x1000), -1);
    assert!(p.memory.is_mapped(1));
}

#[test]
fn munmap_zero_length_succeeds() {
    let mut p = fresh();
    assert_eq!(p.sys_munmap(0x1000, 0), 0);
}

#[test]
fn munmap_refuses_range_with_unmapped_page() {
    let mut p = fresh();
    assert_eq!(p.sys_mmap(0x1000, 0x1000, 3), 0);
    assert_eq!(p.sys_munmap(0x1000, 0x2000), -1);
    assert!(p.memory.is_mapped(1));
    assert_eq!(p.sys_munmap(0x9000, 0x1000), -1);
}

#[test]
fn munmap_after_mmap_unmaps_the_range() {
    let mut p = fresh();
    assert_eq!(p.sys_mmap(0x1000, 0x3000, 3), 0);
    assert_eq!(p.sys_munmap(0x1000, 0x3000), 0);
    assert!(!p.memory.is_mapped(1));
    assert!(!p.memory.is_mapped(2));
    assert!(!p.memory.is_mapped(3));
    assert_eq!(p.sys_mmap(0x1000, 0x3000, 3), 0);
}

#[test]
fn munmap_part_of_a_mapping_keeps_the_rest() {
    let mut p = fresh();
    assert_eq!(p.sys_mmap(0x1000, 0x3000, 3), 0);
    assert_eq!(p.sys_munmap(0x2000, 0x1000), 0);
    assert!(p.memory.is_mapped(1));
    assert!(!p.memory.is_mapped(2));
    assert!(p.memory.is_mapped(3));
}

#[test]
fn trace_reads_zero_from_fresh_page() {
    let mut p = fresh();
    assert_eq!(p.sys_mmap(0x3000, 0x1000, 3), 0);
    assert_eq!(p.sys_trace(0, 0, 0x3123), 0);
}

#[test]
fn trace_write_then_read_gives_low_byte() {
    let mut p = fresh();
    assert_eq!(p.sys_mmap(0x3000, 0x1000, 3), 0);
    assert_eq!(p.sys_trace(1, 0x1234, 0x3123), 0);
    assert_eq!(p.sys_trace(0, 0, 0x3123), 0x34);
    assert_eq!(p.sys_trace(0, 0, 0x3124), 0);
    assert_eq!(p.sys_trace(1, 0xff, 0x3fff), 0);
    assert_eq!(p.sys_trace(0, 0, 0x3fff), 255);
}

#[test]
fn trace_write_refused_on_read_only_page() {
    let mut p = fresh();
    assert_eq!(p.sys_mmap(0x3000, 0x1000, 1), 0);
    assert_eq!(p.sys_trace(1, 5, 0x3000), -1);
    assert_eq!(p.sys_trace(0, 0, 0x3000), 0);
}

#[test]
fn trace_read_refused_on_write_only_page() {
    let mut p = fresh();
    assert_eq!(p.sys_mmap(0x3000, 0x1000, 2), 0);
    assert_eq!(p.sys_trace(0, 0, 0x3000), -1);
    assert_eq!(p.sys_trace(1, 9, 0x3000), 0);
}

#[test]
fn trace_refused_on_unmapped_address_and_unknown_request() {
    let mut p = fresh();
    assert_eq!(p.sys_trace(0, 0, 0x7000), -1);
    assert_eq!(p.sys_trace(1, 1, 0x7000), -1);
    assert_eq!(p.sys_mmap(0x7000, 0x1000, 3), 0);
    assert_eq!(p.sys_trace(2, 1, 0x7000), -1);
}

#[test]
fn remapped_page_is_zeroed() {
    let mut p = fresh();
    assert_eq!(p.sys_mmap(0x3000, 0x1000, 3), 0);
    assert_eq!(p.sys_trace(1, 77, 0x3010), 0);
    assert_eq!(p.sys_munmap(0x3000, 0x1000), 0);
    assert_eq!(p.sys_trace(0, 0, 0x3010), -1);
    assert_eq!(p.sys_mmap(0x3000, 0x1000, 3), 0);
    assert_eq!(p.sys_trace(0, 0, 0x3010), 0);
}

#[test]
fn address_space_starts_empty() {
    let s = AddressSpace::new();
    assert!(!s.is_mapped(0));
    assert!(!s.is_mapped(12345));
}

#[test]
fn trace_uses_data_as_address_and_id_as_value() {
    let mut p = fresh();
    assert_eq!(p.sys_mmap(0x3000, 0x1000, 3), 0);
    // id names an unmapped page: it is the value, not the address
    assert_eq!(p.sys_trace(1, 0x9_0041, 0x3008), 0);
    assert_eq!(p.sys_trace(0, 0x9_0000, 0x3008), 0x41);
    // data names an unmapped page: refused whatever id is
    assert_eq!(p.sys_trace(0, 0x3008, 0x9_0000), -1);
    assert_eq!(p.sys_trace(1, 0x3008, 0x9_0000), -1);
}
