use granite::elf::{ExecutableLayout, EM_X86_64, ET_EXEC, PF_EXECUTE, PT_LOAD};
use granite::handoff::{
    write_multiboot2, FirmwareMemoryRegion, HandoffError, MemoryKind, MAXIMUM_MEMORY_REGIONS,
};
use granite::placement::{
    absorb_memory_descriptor, acpi_root_address_admissible, acpi_root_length,
    check_arach_segment, check_early_placement, collect_memory_regions, deferred_bss_range,
    load_arach_segment,
    framebuffer_from_mode, has_rsdp_signature, memory_kind_of, overlaps_deferred_bss,
    module_table, page_count, plan_arach_copy, select_acpi_root, ConfigTableKind,
    MemoryDescriptor, NativeHandoffError, PixelLayout, PlacedModule,
};

/// (virtual address, physical address, file bytes, memory bytes); the first
/// segment is executable and holds the entry.
fn kernel_image(segments: &[(u64, u64, u64, u64)]) -> ExecutableLayout {
    let mut bytes = vec![0_u8; 0x3000];
    bytes[..4].copy_from_slice(b"\x7fELF");
    bytes[4] = 2;
    bytes[5] = 1;
    bytes[6] = 1;
    bytes[16..18].copy_from_slice(&ET_EXEC.to_le_bytes());
    bytes[18..20].copy_from_slice(&EM_X86_64.to_le_bytes());
    bytes[20..24].copy_from_slice(&1u32.to_le_bytes());
    bytes[24..32].copy_from_slice(&segments[0].0.to_le_bytes());
    bytes[32..40].copy_from_slice(&64u64.to_le_bytes());
    bytes[52..54].copy_from_slice(&64u16.to_le_bytes());
    bytes[54..56].copy_from_slice(&56u16.to_le_bytes());
    bytes[56..58].copy_from_slice(&(segments.len() as u16).to_le_bytes());
    for (index, (virt, phys, file, memory)) in segments.iter().enumerate() {
        let p = 64 + 56 * index;
        let flags = if index == 0 { PF_EXECUTE } else { 0 };
        bytes[p..p + 4].copy_from_slice(&PT_LOAD.to_le_bytes());
        bytes[p + 4..p + 8].copy_from_slice(&flags.to_le_bytes());
        bytes[p + 8..p + 16].copy_from_slice(&0x1000u64.to_le_bytes());
        bytes[p + 16..p + 24].copy_from_slice(&virt.to_le_bytes());
        bytes[p + 24..p + 32].copy_from_slice(&phys.to_le_bytes());
        bytes[p + 32..p + 40].copy_from_slice(&file.to_le_bytes());
        bytes[p + 40..p + 48].copy_from_slice(&memory.to_le_bytes());
        bytes[p + 48..p + 56].copy_from_slice(&0x1000u64.to_le_bytes());
    }
    ExecutableLayout::parse(&bytes).unwrap()
}

const HIGH: u64 = 0xffff_8000_0000_0000;

#[test]
fn finds_the_single_deferred_bss() {
    let layout = kernel_image(&[(0x10_0000, 0x10_0000, 0x40, 0x1000)]);
    assert_eq!(deferred_bss_range(&layout), Ok(None));
    let layout = kernel_image(&[
        (HIGH + 0x10_0000, 0x10_0000, 0x40, 0x1000),
        (HIGH + 0x20_0000, 0x20_0000, 0, 0x8000),
    ]);
    assert_eq!(deferred_bss_range(&layout), Ok(Some((0x20_0000, 0x20_8000))));
    let layout = kernel_image(&[
        (HIGH + 0x10_0000, 0x10_0000, 0x40, 0x1000),
        (HIGH + 0x20_0000, 0x20_0000, 0, 0x8000),
        (HIGH + 0x30_0000, 0x30_0000, 0, 0x8000),
    ]);
    assert_eq!(deferred_bss_range(&layout), Err(NativeHandoffError::DeferredBssPlacement));
}

#[test]
fn decides_each_arach_segment() {
    let layout = kernel_image(&[
        (HIGH + 0x10_0000, 0x10_0000, 0x40, 0x1000),
        (HIGH + 0x20_0000, 0x20_0000, 0, 0x8000),
        (0x40_0000, 0x40_0000, 0, 0x1000),
    ]);
    let segments = layout.segments();
    assert_eq!(check_arach_segment(segments[0], 0), Ok(()));
    assert_eq!(check_arach_segment(segments[1], 1), Ok(()));
    assert_eq!(check_arach_segment(segments[2], 2), Ok(()));
    let low = kernel_image(&[(0x1000, 0x1000, 0x40, 0x1000)]);
    assert_eq!(
        check_arach_segment(low.segments()[0], 0),
        Err(NativeHandoffError::ArachPlacement(0))
    );
    let high = kernel_image(&[(0x3fff_f000, 0x3fff_f000, 0x40, 0x2000)]);
    assert_eq!(
        check_arach_segment(high.segments()[0], 3),
        Err(NativeHandoffError::ArachPlacement(3))
    );
}

#[test]
fn plans_each_arach_copy() {
    let layout = kernel_image(&[(0x10_0000, 0x10_0000, 0x40, 0x1001)]);
    let segment = layout.segments()[0];
    assert_eq!(plan_arach_copy(segment, 0, 0x3000), Ok((0x1000, 0x40, 0x1001)));
    assert_eq!(
        plan_arach_copy(segment, 4, 0x1020),
        Err(NativeHandoffError::ArachPlacement(4))
    );
}

#[test]
fn loads_exactly_the_segment_and_zeroes_only_its_tail() {
    let layout = kernel_image(&[(0x10_0000, 0x10_0000, 0x40, 0x50)]);
    let segment = layout.segments()[0];
    let mut image = vec![0_u8; 0x3000];
    for (i, byte) in image.iter_mut().enumerate() {
        *byte = (i % 251) as u8 + 1;
    }
    let mut memory = vec![0xaa_u8; 0x1000];
    assert_eq!(load_arach_segment(&mut memory, &image, segment, 0), Ok(()));
    assert_eq!(&memory[..0x40], &image[0x1000..0x1040]);
    assert!(memory[0x40..0x50].iter().all(|&b| b == 0));
    assert!(memory[0x50..].iter().all(|&b| b == 0xaa));

    let bss = kernel_image(&[
        (HIGH + 0x10_0000, 0x10_0000, 0x40, 0x1000),
        (HIGH + 0x20_0000, 0x20_0000, 0, 0x10),
    ]);
    let mut memory = vec![0xaa_u8; 0x1000];
    assert_eq!(load_arach_segment(&mut memory, &image, bss.segments()[1], 1), Ok(()));
    assert!(memory[..0x10].iter().all(|&b| b == 0));
    assert!(memory[0x10..].iter().all(|&b| b == 0xaa));

    let mut small = vec![0xaa_u8; 0x20];
    assert_eq!(
        load_arach_segment(&mut small, &image, segment, 5),
        Err(NativeHandoffError::ArachPlacement(5))
    );
    assert!(small.iter().all(|&b| b == 0xaa));
}

#[test]
fn absorbs_one_descriptor_at_a_time() {
    let mut target = [FirmwareMemoryRegion::empty(); MAXIMUM_MEMORY_REGIONS];
    let first = MemoryDescriptor { memory_type: 7, phys_start: 0x1000, page_count: 2 };
    assert_eq!(absorb_memory_descriptor(&mut target, 0, first), Ok(1));
    let next = MemoryDescriptor { memory_type: 4, phys_start: 0x3000, page_count: 1 };
    assert_eq!(absorb_memory_descriptor(&mut target, 1, next), Ok(1));
    assert_eq!(
        target[0],
        FirmwareMemoryRegion { start: 0x1000, length: 0x3000, kind: MemoryKind::Usable }
    );
    let empty = MemoryDescriptor { memory_type: 7, phys_start: 0x9000, page_count: 0 };
    assert_eq!(absorb_memory_descriptor(&mut target, 1, empty), Ok(1));
    let before = target;
    let overflowing = MemoryDescriptor { memory_type: 7, phys_start: u64::MAX - 0xfff, page_count: 1 };
    assert_eq!(
        absorb_memory_descriptor(&mut target, 1, overflowing),
        Err(HandoffError::InvalidMemoryRegion)
    );
    assert_eq!(target, before);
    let apart = MemoryDescriptor { memory_type: 7, phys_start: 0x8000, page_count: 1 };
    assert_eq!(absorb_memory_descriptor(&mut target, 1, apart), Ok(2));
    assert_eq!(target[2], FirmwareMemoryRegion::empty());
}

#[test]
fn wraps_layout_errors() {
    assert_eq!(
        NativeHandoffError::from(HandoffError::BufferTooSmall),
        NativeHandoffError::Layout(HandoffError::BufferTooSmall)
    );
}

#[test]
fn counts_pages() {
    assert_eq!(page_count(0), Err(NativeHandoffError::PageCount));
    assert_eq!(page_count(1), Ok(1));
    assert_eq!(page_count(4096), Ok(1));
    assert_eq!(page_count(4097), Ok(2));
    assert_eq!(page_count(u64::MAX), Err(NativeHandoffError::PageCount));
}

#[test]
fn checks_early_placements() {
    let bss = Some((0x20_0000, 0x30_0000));
    assert!(overlaps_deferred_bss(0x2f_f000, 0x40_0000, bss));
    assert!(!overlaps_deferred_bss(0x30_0000, 0x40_0000, bss));
    assert!(!overlaps_deferred_bss(0, u64::MAX, None));
    let failure = NativeHandoffError::ModulePlacement;
    assert_eq!(check_early_placement(0x40_0000, 0x1000, bss, failure), Ok(0x40_1000));
    assert_eq!(check_early_placement(0x1f_f000, 0x2000, bss, failure), Err(failure));
    assert_eq!(check_early_placement(0x3fff_f000, 0x2000, None, failure), Err(failure));
    assert_eq!(check_early_placement(u64::MAX, 1, None, failure), Err(failure));
}

#[test]
fn collects_and_merges_memory_regions() {
    let descriptors = [
        MemoryDescriptor { memory_type: 7, phys_start: 0, page_count: 16 },
        MemoryDescriptor { memory_type: 3, phys_start: 0x1_0000, page_count: 16 },
        MemoryDescriptor { memory_type: 0, phys_start: 0x2_0000, page_count: 0 },
        MemoryDescriptor { memory_type: 9, phys_start: 0x2_0000, page_count: 1 },
        MemoryDescriptor { memory_type: 7, phys_start: 0x4_0000, page_count: 1 },
    ];
    let mut target = [FirmwareMemoryRegion::empty(); MAXIMUM_MEMORY_REGIONS];
    assert_eq!(collect_memory_regions(&descriptors, &mut target), Ok(3));
    assert_eq!(
        target[0],
        FirmwareMemoryRegion { start: 0, length: 0x2_0000, kind: MemoryKind::Usable }
    );
    assert_eq!(
        target[1],
        FirmwareMemoryRegion { start: 0x2_0000, length: 0x1000, kind: MemoryKind::AcpiReclaimable }
    );
    assert_eq!(
        target[2],
        FirmwareMemoryRegion { start: 0x4_0000, length: 0x1000, kind: MemoryKind::Usable }
    );
}

#[test]
fn refuses_unusable_memory_maps() {
    let mut target = [FirmwareMemoryRegion::empty(); MAXIMUM_MEMORY_REGIONS];
    assert_eq!(collect_memory_regions(&[], &mut target), Err(HandoffError::InvalidMemoryRegion));
    let huge = [MemoryDescriptor { memory_type: 7, phys_start: 0, page_count: u64::MAX }];
    assert_eq!(collect_memory_regions(&huge, &mut target), Err(HandoffError::InvalidMemoryRegion));
    let mut many = Vec::new();
    for index in 0..129u64 {
        let kind = if index % 2 == 0 { 7 } else { 0 };
        many.push(MemoryDescriptor { memory_type: kind, phys_start: index * 0x1000, page_count: 1 });
    }
    assert_eq!(collect_memory_regions(&many, &mut target), Err(HandoffError::TooManyMemoryRegions));
    assert_eq!(memory_kind_of(4), MemoryKind::Usable);
    assert_eq!(memory_kind_of(8), MemoryKind::Defective);
    assert_eq!(memory_kind_of(10), MemoryKind::AcpiNonVolatile);
    assert_eq!(memory_kind_of(11), MemoryKind::Reserved);
}

#[test]
fn reads_the_graphics_mode() {
    let fb = framebuffer_from_mode(PixelLayout::Bgr, 1024, 768, 1024, 0xe000_0000, 4096 * 768).unwrap();
    assert_eq!(fb.pitch, 4096);
    assert_eq!((fb.red_position, fb.green_position, fb.blue_position), (16, 8, 0));
    let fb = framebuffer_from_mode(PixelLayout::Rgb, 1, 1, 1, 1, 4).unwrap();
    assert_eq!((fb.red_position, fb.green_position, fb.blue_position), (0, 8, 16));
    assert_eq!(
        framebuffer_from_mode(PixelLayout::Bitmask, 1, 1, 1, 1, 4),
        Err(NativeHandoffError::GraphicsFormat)
    );
    assert_eq!(
        framebuffer_from_mode(PixelLayout::Rgb, 1, 1, 1 << 30, 1, 4),
        Err(NativeHandoffError::GraphicsFormat)
    );
}

#[test]
fn finds_the_acpi_root() {
    let tables = [
        (ConfigTableKind::Acpi1, 0x1000),
        (ConfigTableKind::Other, 0x2000),
        (ConfigTableKind::Acpi1, 0x3000),
    ];
    assert_eq!(select_acpi_root(&tables), Some(0x3000));
    let tables = [
        (ConfigTableKind::Acpi1, 0x1000),
        (ConfigTableKind::Acpi2, 0x2000),
        (ConfigTableKind::Acpi2, 0x4000),
    ];
    assert_eq!(select_acpi_root(&tables), Some(0x2000));
    assert_eq!(select_acpi_root(&[(ConfigTableKind::Other, 1)]), None);
    assert!(acpi_root_address_admissible(0xe_0000));
    assert!(!acpi_root_address_admissible(0));
    assert!(!acpi_root_address_admissible(1 << 30));
    assert_eq!(acpi_root_length(0xe_0000, 0, 999), Ok(20));
    assert_eq!(acpi_root_length(0xe_0000, 2, 36), Ok(36));
    assert_eq!(acpi_root_length(0xe_0000, 2, 19), Err(NativeHandoffError::AcpiRoot));
    assert_eq!(acpi_root_length(0xe_0000, 2, 4097), Err(NativeHandoffError::AcpiRoot));
    assert_eq!(acpi_root_length((1 << 30) - 10, 0, 0), Err(NativeHandoffError::AcpiRoot));
    assert!(has_rsdp_signature(b"RSD PTR \x00"));
    assert!(!has_rsdp_signature(b"RSD PTR"));
    assert!(!has_rsdp_signature(b"RSD PTX "));
}

fn placed(address: u64) -> PlacedModule {
    PlacedModule { physical_address: address, bytes: 0x1000 }
}

#[test]
fn builds_the_module_table_in_order() {
    let (table, count) = module_table(placed(0x10_0000), placed(0x20_0000), None, None);
    assert_eq!(count, 2);
    assert_eq!((table[0].start, table[0].bytes, table[0].name), (0x10_0000, 0x1000, &b"push"[..]));
    assert_eq!((table[1].start, table[1].name), (0x20_0000, &b"crest"[..]));
    let services = [placed(3), placed(4), placed(5), placed(6), placed(7)];
    let firmware = [placed(8), placed(9), placed(10), placed(11), placed(12)];
    let (table, count) = module_table(placed(1), placed(2), Some(services), Some(firmware));
    assert_eq!(count, 12);
    let names: Vec<&[u8]> = table.iter().map(|module| module.name).collect();
    assert_eq!(
        names,
        vec![
            &b"push"[..],
            b"crest",
            b"dbus-broker",
            b"cosmic-comp",
            b"cosmic-greeter",
            b"cosmic-session",
            b"xdg-desktop-portal-cosmic",
            b"hermes-gsp",
            b"hermes-sec2",
            b"hermes-gsp-bootloader",
            b"hermes-booter-load",
            b"hermes-booter-unload",
        ]
    );
    let starts: Vec<u64> = table.iter().map(|module| module.start).collect();
    assert_eq!(starts, (1..=12).collect::<Vec<u64>>());
    let (table, count) = module_table(placed(1), placed(2), None, Some(firmware));
    assert_eq!(count, 7);
    assert_eq!((table[2].start, table[2].name), (8, &b"hermes-gsp"[..]));
}

#[test]
fn placed_module_tables_are_accepted_by_the_handoff() {
    let services = [placed(0x30_0000), placed(0x31_0000), placed(0x32_0000), placed(0x33_0000), placed(0x34_0000)];
    let firmware = [placed(0x40_0000), placed(0x41_0000), placed(0x42_0000), placed(0x43_0000), placed(0x44_0000)];
    let (table, count) =
        module_table(placed(0x10_0000), placed(0x20_0000), Some(services), Some(firmware));
    let regions = [FirmwareMemoryRegion { start: 0, length: 0x100_0000, kind: MemoryKind::Usable }];
    let mut rsdp = [0_u8; 20];
    rsdp[..8].copy_from_slice(b"RSD PTR ");
    let mut record = vec![0_u8; 4096];
    let used = write_multiboot2(&mut record, &regions, &table[..count], None, &rsdp).unwrap();
    assert_eq!(used % 8, 0);
    assert_eq!(u32::from_le_bytes(record[..4].try_into().unwrap()) as usize, used);
}
