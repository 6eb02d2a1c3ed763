use tachibana::memory_map::{
    memory_map_entry, memory_map_file, memory_map_line, push_decimal, push_hex, push_hex_padded8,
    MemoryDescriptor, MEMORY_MAP_HEADER,
};

fn text(v: Vec<u8>) -> String {
    String::from_utf8(v).unwrap()
}

#[test]
fn numbers_in_decimal_and_hex() {
    for n in [0u64, 9, 10, 255, 4096, u64::MAX] {
        let mut d = Vec::new();
        push_decimal(&mut d, n);
        assert_eq!(text(d), format!("{}", n));
        let mut h = Vec::new();
        push_hex(&mut h, n);
        assert_eq!(text(h), format!("{:x}", n));
        let mut p = vec![b'>'];
        push_hex_padded8(&mut p, n);
        assert_eq!(text(p), format!(">{:08x}", n));
    }
}

#[test]
fn line_layout() {
    let d = MemoryDescriptor { ty: 7, phys_start: 0x100000, page_count: 0x1f, att: 0x8000_0000_0000_000f };
    let line = memory_map_line(3, &d, b"CONVENTIONAL");
    assert_eq!(text(line), "3, 7, CONVENTIONAL, 00100000, 1f, f\n");
}

#[test]
fn line_keeps_long_addresses_and_masks_attributes() {
    let d = MemoryDescriptor { ty: 0x8000_0001, phys_start: 0x1_2345_6789, page_count: 0, att: 0xfff_ffff };
    let line = memory_map_line(12, &d, b"X");
    assert_eq!(text(line), "12, 80000001, X, 123456789, 0, fffff\n");
}

#[test]
fn entry_names_the_memory_type() {
    let d = MemoryDescriptor { ty: 7, phys_start: 0, page_count: 1, att: 0 };
    assert_eq!(text(memory_map_entry(0, &d)), "0, 7, CONVENTIONAL, 00000000, 1, 0\n");
    let d = MemoryDescriptor { ty: 2, phys_start: 0x1000, page_count: 2, att: 0xf };
    assert_eq!(text(memory_map_entry(1, &d)), "1, 2, LOADER_DATA, 00001000, 2, f\n");
}

#[test]
fn entry_names_an_unknown_memory_type_by_number() {
    let d = MemoryDescriptor { ty: 0x1234, phys_start: 0, page_count: 0, att: 0 };
    assert_eq!(text(memory_map_entry(5, &d)), "5, 1234, MemoryType(4660), 00000000, 0, 0\n");
}

#[test]
fn file_is_header_then_lines() {
    let descs = [
        MemoryDescriptor { ty: 3, phys_start: 0, page_count: 0xa0, att: 0xf },
        MemoryDescriptor { ty: 7, phys_start: 0x100000, page_count: 0x700, att: 0xf },
    ];
    let file = text(memory_map_file(&descs));
    assert_eq!(
        file,
        format!(
            "{}{}{}",
            MEMORY_MAP_HEADER,
            "0, 3, BOOT_SERVICES_CODE, 00000000, a0, f\n",
            "1, 7, CONVENTIONAL, 00100000, 700, f\n"
        )
    );
    assert!(file.starts_with("Index, Type, Type(name), PhysicalStart, NumberOfPages, Attribute\n"));
}

#[test]
fn empty_map_is_header_only() {
    assert_eq!(text(memory_map_file(&[])), MEMORY_MAP_HEADER);
}

#[test]
fn every_known_memory_type_is_named() {
    let names = [
        "RESERVED", "LOADER_CODE", "LOADER_DATA", "BOOT_SERVICES_CODE", "BOOT_SERVICES_DATA",
        "RUNTIME_SERVICES_CODE", "RUNTIME_SERVICES_DATA", "CONVENTIONAL", "UNUSABLE", "ACPI_RECLAIM",
        "ACPI_NON_VOLATILE", "MMIO", "MMIO_PORT_SPACE", "PAL_CODE", "PERSISTENT_MEMORY", "UNACCEPTED", "MAX",
    ];
    for (ty, name) in names.iter().enumerate() {
        let d = MemoryDescriptor { ty: ty as u32, phys_start: 0, page_count: 0, att: 0 };
        assert_eq!(text(memory_map_entry(0, &d)), format!("0, {:x}, {}, 00000000, 0, 0\n", ty, name));
    }
    let d = MemoryDescriptor { ty: 17, phys_start: 0, page_count: 0, att: 0 };
    assert_eq!(text(memory_map_entry(0, &d)), "0, 11, MemoryType(17), 00000000, 0, 0\n");
}
