use tachibana::elf_loader::{
    calc_load_address_range, copy_load_segments, kernel_page_count, plan_from_image, plan_kernel_load,
    segments_fit_memory, ElfImage, LoadError, ProgramHeader, PT_LOAD,
};

/// (p_type, p_offset, p_vaddr, p_filesz, p_memsz)
type Seg = (u32, u64, u64, u64, u64);

fn put16(v: &mut Vec<u8>, x: u16) {
    v.extend_from_slice(&x.to_le_bytes());
}
fn put32(v: &mut Vec<u8>, x: u32) {
    v.extend_from_slice(&x.to_le_bytes());
}
fn put64(v: &mut Vec<u8>, x: u64) {
    v.extend_from_slice(&x.to_le_bytes());
}

/// A little-endian ELF64 executable with the given program headers and no
/// sections, followed by `payload`.
fn elf_file(entry: u64, segs: &[Seg], payload: &[u8]) -> Vec<u8> {
    let mut v = vec![0x7f, b'E', b'L', b'F', 2, 1, 1, 0, 0, 0, 0, 0, 0, 0, 0, 0];
    put16(&mut v, 2);
    put16(&mut v, 0x3e);
    put32(&mut v, 1);
    put64(&mut v, entry);
    put64(&mut v, 64);
    put64(&mut v, 0);
    put32(&mut v, 0);
    put16(&mut v, 64);
    put16(&mut v, 56);
    put16(&mut v, segs.len() as u16);
    put16(&mut v, 64);
    put16(&mut v, 0);
    put16(&mut v, 0);
    for &(ty, off, vaddr, filesz, memsz) in segs {
        put32(&mut v, ty);
        put32(&mut v, 5);
        put64(&mut v, off);
        put64(&mut v, vaddr);
        put64(&mut v, vaddr);
        put64(&mut v, filesz);
        put64(&mut v, memsz);
        put64(&mut v, 0x1000);
    }
    v.extend_from_slice(payload);
    v
}

fn header(ty: u32, off: u64, vaddr: u64, filesz: u64, memsz: u64) -> ProgramHeader {
    ProgramHeader { p_type: ty, p_offset: off, p_vaddr: vaddr, p_filesz: filesz, p_memsz: memsz }
}

fn image(segs: &[Seg]) -> ElfImage {
    ElfImage {
        entry: 0,
        program_headers: segs.iter().map(|&(t, o, v, f, m)| header(t, o, v, f, m)).collect(),
    }
}

#[test]
fn plan_reads_entry_range_and_pages() {
    let segs = [(PT_LOAD, 0, 0x100000, 0x10, 0x2000), (6, 0, 0, 0, 0), (PT_LOAD, 0x10, 0x102000, 0x10, 0x1800)];
    let bytes = elf_file(0x101120, &segs, &[0u8; 0x20]);
    let plan = plan_kernel_load(&bytes).unwrap();
    assert_eq!(plan.entry, 0x101120);
    assert_eq!(plan.image.program_headers.len(), 3);
    assert_eq!(plan.image.program_headers[2], header(PT_LOAD, 0x10, 0x102000, 0x10, 0x1800));
    assert_eq!((plan.first, plan.last), (0x102000, 0x103800));
    assert_eq!(plan.num_pages, 2);
}

#[test]
fn plan_rejects_bytes_that_are_not_elf() {
    assert_eq!(plan_kernel_load(b"not an elf file at all, just some text").unwrap_err(), LoadError::InvalidElf);
    assert_eq!(plan_kernel_load(&[]).unwrap_err(), LoadError::InvalidElf);
}

#[test]
fn plan_rejects_a_file_without_loadable_segment() {
    let bytes = elf_file(0, &[(6, 0, 0, 0, 0)], &[]);
    assert_eq!(plan_kernel_load(&bytes).unwrap_err(), LoadError::NoLoadableSegment);
}

#[test]
fn plan_rejects_a_segment_past_the_file() {
    let bytes = elf_file(0, &[(PT_LOAD, 0x100, 0x1000, 0x100, 0x100)], &[0u8; 8]);
    assert_eq!(plan_kernel_load(&bytes).unwrap_err(), LoadError::SegmentOutsideFile);
}

#[test]
fn plan_rejects_file_bytes_larger_than_memory() {
    let img = image(&[(PT_LOAD, 0, 0x1000, 0x20, 0x10)]);
    assert_eq!(plan_from_image(img, 0x100).unwrap_err(), LoadError::SegmentOutsideFile);
}

#[test]
fn plan_rejects_an_overflowing_segment() {
    let img = image(&[(PT_LOAD, 0, u64::MAX - 4, 0, 0x10)]);
    assert_eq!(plan_from_image(img, 0).unwrap_err(), LoadError::AddressOverflow);
}

#[test]
fn plan_rejects_a_range_too_large_for_page_rounding() {
    let img = image(&[(PT_LOAD, 0, 0, 0, 0x10), (PT_LOAD, 0, 0x10, 0, u64::MAX - 0x10)]);
    assert_eq!(plan_from_image(img, 0).unwrap_err(), LoadError::AddressOverflow);
}

#[test]
fn range_of_one_segment_starts_at_zero() {
    let img = image(&[(PT_LOAD, 0, 0x100000, 0, 0x1234)]);
    assert_eq!(calc_load_address_range(&img), (0, 0x101234));
}

#[test]
fn range_without_loadable_segment_is_empty_marker() {
    let img = image(&[(2, 0, 0x100000, 0, 0x1234)]);
    assert_eq!(calc_load_address_range(&img), (usize::MAX, 0));
}

#[test]
fn range_last_is_largest_end() {
    let img = image(&[(PT_LOAD, 0, 0x300000, 0, 0x100), (PT_LOAD, 0, 0x100000, 0, 0x100)]);
    assert_eq!(calc_load_address_range(&img), (0x100000, 0x300100));
}

#[test]
fn page_count_rounds_up() {
    assert_eq!(kernel_page_count(0, 0), 0);
    assert_eq!(kernel_page_count(0, 1), 1);
    assert_eq!(kernel_page_count(0x1000, 0x2000), 1);
    assert_eq!(kernel_page_count(0x1000, 0x2001), 2);
    assert_eq!(kernel_page_count(5, 0x1005), 1);
}

#[test]
fn copy_writes_file_bytes_then_zeros() {
    let src: Vec<u8> = (0u8..32).collect();
    let img = image(&[(PT_LOAD, 4, 0x1002, 3, 6), (3, 0, 0x1000, 0, 16), (PT_LOAD, 20, 0x100a, 2, 2)]);
    let mut mem = vec![0xeeu8; 16];
    assert!(segments_fit_memory(&img, 0x1000, mem.len()));
    copy_load_segments(&img, &src, 0x1000, &mut mem);
    assert_eq!(
        mem,
        vec![0xee, 0xee, 4, 5, 6, 0, 0, 0, 0xee, 0xee, 20, 21, 0xee, 0xee, 0xee, 0xee]
    );
}

#[test]
fn later_segment_overwrites_earlier() {
    let src: Vec<u8> = (100u8..120).collect();
    let img = image(&[(PT_LOAD, 0, 0x10, 4, 4), (PT_LOAD, 10, 0x12, 1, 3)]);
    let mut mem = vec![0u8; 8];
    copy_load_segments(&img, &src, 0x10, &mut mem);
    assert_eq!(mem, vec![100, 101, 110, 0, 0, 0, 0, 0]);
}

#[test]
fn segments_fit_memory_checks_each_loadable_segment() {
    let img = image(&[(PT_LOAD, 0, 0x1000, 0, 0x10), (7, 0, 0, 0, 0x100000)]);
    assert!(segments_fit_memory(&img, 0x1000, 0x10));
    assert!(!segments_fit_memory(&img, 0x1000, 0xf));
    assert!(!segments_fit_memory(&img, 0x1001, 0x100));
}

#[test]
fn range_ignores_headers_that_are_not_loadable() {
    let loads = [(PT_LOAD, 0, 0x200000, 0, 0x100), (PT_LOAD, 0, 0x100000, 0, 0x80)];
    let with_others = [(4, 0, 0x900000, 0, 0x10), loads[0], (2, 0, 0, 0, 0), loads[1], (6, 0, 0x1, 0, 0x1)];
    assert_eq!(calc_load_address_range(&image(&loads)), calc_load_address_range(&image(&with_others)));
    assert_eq!(calc_load_address_range(&image(&with_others)), (0x100000, 0x200100));
}

#[test]
fn plan_keeps_the_entry_in_its_image() {
    let bytes = elf_file(0x100010, &[(PT_LOAD, 0, 0x100000, 0x10, 0x10)], &[0u8; 0x10]);
    let plan = plan_kernel_load(&bytes).unwrap();
    assert_eq!(plan.image.entry, 0x100010);
}
