use granite::elf::{ExecutableLayout, ELF_HEADER_BYTES, EM_X86_64, ET_EXEC, PF_EXECUTE, PT_LOAD};
use granite::handoff::{
    validate_boulder_layout, write_multiboot2, BootModule, FirmwareMemoryRegion, Framebuffer,
    HandoffError, MemoryKind, TAG_END, TAG_MEMORY_MAP,
};

fn le32(bytes: &[u8], offset: usize) -> u32 {
    u32::from_le_bytes(bytes[offset..offset + 4].try_into().unwrap())
}

fn le64(bytes: &[u8], offset: usize) -> u64 {
    u64::from_le_bytes(bytes[offset..offset + 8].try_into().unwrap())
}

fn usable_region() -> [FirmwareMemoryRegion; 1] {
    [FirmwareMemoryRegion {
        start: 0x10_0000,
        length: 0x40_0000,
        kind: MemoryKind::Usable,
    }]
}

fn framebuffer() -> Framebuffer {
    Framebuffer {
        physical_address: 0xe000_0000,
        byte_length: 4096 * 768,
        width: 1024,
        height: 768,
        pitch: 4096,
        red_position: 16,
        green_position: 8,
        blue_position: 0,
    }
}

#[test]
fn writes_a_bounded_aligned_boot_record() {
    let regions = [FirmwareMemoryRegion {
        start: 0x10_0000,
        length: 0x40_0000,
        kind: MemoryKind::Usable,
    }];
    let modules = [
        BootModule {
            start: 0x60_0000,
            bytes: 0x1000,
            name: b"push",
        },
        BootModule {
            start: 0x61_0000,
            bytes: 0x1000,
            name: b"crest",
        },
    ];
    let mut rsdp = [0_u8; 36];
    rsdp[..8].copy_from_slice(b"RSD PTR ");
    let mut bytes = [0_u8; 512];
    let used = write_multiboot2(
        &mut bytes,
        &regions,
        &modules,
        Some(Framebuffer {
            physical_address: 0xe000_0000,
            byte_length: 4096 * 768,
            width: 1024,
            height: 768,
            pitch: 4096,
            red_position: 16,
            green_position: 8,
            blue_position: 0,
        }),
        &rsdp,
    )
    .unwrap();

    assert_eq!(used % 8, 0);
    assert_eq!(
        u32::from_le_bytes(bytes[..4].try_into().unwrap()) as usize,
        used
    );
    assert_eq!(
        u32::from_le_bytes(bytes[8..12].try_into().unwrap()),
        TAG_MEMORY_MAP
    );
    assert_eq!(
        u32::from_le_bytes(bytes[used - 8..used - 4].try_into().unwrap()),
        TAG_END
    );
}

#[test]
fn rejects_a_module_that_cannot_be_represented_by_multiboot() {
    let regions = [FirmwareMemoryRegion {
        start: 0x10_0000,
        length: 0x40_0000,
        kind: MemoryKind::Usable,
    }];
    let modules = [BootModule {
        start: u64::from(u32::MAX),
        bytes: 2,
        name: b"push",
    }];
    let mut bytes = [0_u8; 256];
    assert_eq!(
        write_multiboot2(&mut bytes, &regions, &modules, None, &[0; 20]),
        Err(HandoffError::InvalidModule)
    );
}

#[test]
fn lays_out_every_tag_field() {
    let modules = [BootModule {
        start: 0x60_0000,
        bytes: 0x1000,
        name: b"push",
    }];
    let rsdp = [0x5a_u8; 20];
    let mut bytes = [0xff_u8; 256];
    let used = write_multiboot2(&mut bytes, &usable_region(), &modules, Some(framebuffer()), &rsdp)
        .unwrap();
    // Header, memory map (16 + 24), module (16 + 5 padded to 24), framebuffer
    // (38 padded to 40), ACPI (28 padded to 32), end (8).
    assert_eq!(used, 8 + 40 + 24 + 40 + 32 + 8);
    assert_eq!(le32(&bytes, 0) as usize, used);
    assert_eq!(le32(&bytes, 4), 0);
    assert_eq!(le32(&bytes, 8), 6);
    assert_eq!(le32(&bytes, 12), 40);
    assert_eq!(le32(&bytes, 16), 24);
    assert_eq!(le32(&bytes, 20), 0);
    assert_eq!(le64(&bytes, 24), 0x10_0000);
    assert_eq!(le64(&bytes, 32), 0x40_0000);
    assert_eq!(le32(&bytes, 40), 1);
    assert_eq!(le32(&bytes, 44), 0);
    // Module tag at 48.
    assert_eq!(le32(&bytes, 48), 3);
    assert_eq!(le32(&bytes, 52), 21);
    assert_eq!(le32(&bytes, 56), 0x60_0000);
    assert_eq!(le32(&bytes, 60), 0x60_1000);
    assert_eq!(&bytes[64..68], b"push");
    assert_eq!(bytes[68], 0);
    assert_eq!(&bytes[69..72], &[0, 0, 0]);
    // Framebuffer tag at 72.
    assert_eq!(le32(&bytes, 72), 8);
    assert_eq!(le32(&bytes, 76), 38);
    assert_eq!(le64(&bytes, 80), 0xe000_0000);
    assert_eq!(le32(&bytes, 88), 4096);
    assert_eq!(le32(&bytes, 92), 1024);
    assert_eq!(le32(&bytes, 96), 768);
    assert_eq!(&bytes[100..110], &[32, 1, 0, 0, 16, 8, 8, 8, 0, 8]);
    assert_eq!(&bytes[110..112], &[0, 0]);
    // ACPI tag at 112.
    assert_eq!(le32(&bytes, 112), 15);
    assert_eq!(le32(&bytes, 116), 28);
    assert_eq!(&bytes[120..140], &rsdp);
    // End tag at 144.
    assert_eq!(le32(&bytes, 144), 0);
    assert_eq!(le32(&bytes, 148), 8);
    // Bytes past the record are untouched.
    assert!(bytes[used..].iter().all(|&b| b == 0xff));
}

#[test]
fn rejects_each_invalid_input() {
    let mut bytes = [0_u8; 512];
    let too_many = [FirmwareMemoryRegion::empty(); 129];
    assert_eq!(
        write_multiboot2(&mut bytes, &too_many, &[], None, &[0; 20]),
        Err(HandoffError::TooManyMemoryRegions)
    );
    assert_eq!(
        write_multiboot2(&mut bytes, &usable_region(), &[], None, &[0; 19]),
        Err(HandoffError::InvalidAcpiRoot)
    );
    assert_eq!(
        write_multiboot2(&mut bytes, &usable_region(), &[], None, &[0; 4097]),
        Err(HandoffError::InvalidAcpiRoot)
    );
    let empty_region = [FirmwareMemoryRegion {
        start: 0x1000,
        length: 0,
        kind: MemoryKind::Reserved,
    }];
    assert_eq!(
        write_multiboot2(&mut bytes, &empty_region, &[], None, &[0; 20]),
        Err(HandoffError::InvalidMemoryRegion)
    );
    let wrapping_region = [FirmwareMemoryRegion {
        start: u64::MAX,
        length: 2,
        kind: MemoryKind::Reserved,
    }];
    assert_eq!(
        write_multiboot2(&mut bytes, &wrapping_region, &[], None, &[0; 20]),
        Err(HandoffError::InvalidMemoryRegion)
    );
    for module in [
        BootModule { start: 0x1000, bytes: 0, name: b"x" },
        BootModule { start: 0x1000, bytes: 1, name: b"" },
        BootModule { start: 0x1000, bytes: 1, name: b"a\0b" },
        BootModule { start: u64::MAX, bytes: 1, name: b"x" },
    ] {
        assert_eq!(
            write_multiboot2(&mut bytes, &usable_region(), &[module], None, &[0; 20]),
            Err(HandoffError::InvalidModule)
        );
    }
    let mut narrow = framebuffer();
    narrow.pitch = 1000;
    let mut short = framebuffer();
    short.byte_length = 4096;
    let mut null = framebuffer();
    null.physical_address = 0;
    for framebuffer in [narrow, short, null] {
        assert_eq!(
            write_multiboot2(&mut bytes, &usable_region(), &[], Some(framebuffer), &[0; 20]),
            Err(HandoffError::InvalidFramebuffer)
        );
    }
}

#[test]
fn refuses_a_buffer_too_small_for_the_record() {
    let mut bytes = [0x11_u8; 80];
    assert_eq!(
        write_multiboot2(&mut bytes, &usable_region(), &[], None, &[0x22; 20]),
        Err(HandoffError::BufferTooSmall)
    );
    // What was written is the zeroed header and a prefix of the tags.
    assert_eq!(&bytes[..8], &[0; 8]);
    assert_eq!(le32(&bytes, 8), 6);
    let mut tiny = [0x11_u8; 4];
    assert_eq!(
        write_multiboot2(&mut tiny, &usable_region(), &[], None, &[0x22; 20]),
        Err(HandoffError::BufferTooSmall)
    );
    assert_eq!(tiny, [0x11; 4]);
    let mut exact = [0_u8; 8 + 40 + 32 + 8];
    assert_eq!(
        write_multiboot2(&mut exact, &usable_region(), &[], None, &[0x22; 20]),
        Ok(88)
    );
}

fn layout_with_entry_segment(physical: u64, memory: u64) -> ExecutableLayout {
    let mut bytes = vec![0_u8; 0x1100];
    bytes[..4].copy_from_slice(b"\x7fELF");
    bytes[4] = 2;
    bytes[5] = 1;
    bytes[6] = 1;
    bytes[16..18].copy_from_slice(&ET_EXEC.to_le_bytes());
    bytes[18..20].copy_from_slice(&EM_X86_64.to_le_bytes());
    bytes[20..24].copy_from_slice(&1u32.to_le_bytes());
    bytes[24..32].copy_from_slice(&physical.to_le_bytes());
    bytes[32..40].copy_from_slice(&(ELF_HEADER_BYTES as u64).to_le_bytes());
    bytes[52..54].copy_from_slice(&64u16.to_le_bytes());
    bytes[54..56].copy_from_slice(&56u16.to_le_bytes());
    bytes[56..58].copy_from_slice(&1u16.to_le_bytes());
    let p = ELF_HEADER_BYTES;
    bytes[p..p + 4].copy_from_slice(&PT_LOAD.to_le_bytes());
    bytes[p + 4..p + 8].copy_from_slice(&PF_EXECUTE.to_le_bytes());
    bytes[p + 8..p + 16].copy_from_slice(&0x1000u64.to_le_bytes());
    bytes[p + 16..p + 24].copy_from_slice(&physical.to_le_bytes());
    bytes[p + 24..p + 32].copy_from_slice(&physical.to_le_bytes());
    bytes[p + 32..p + 40].copy_from_slice(&0x40u64.to_le_bytes());
    bytes[p + 40..p + 48].copy_from_slice(&memory.to_le_bytes());
    bytes[p + 48..p + 56].copy_from_slice(&0x1000u64.to_le_bytes());
    ExecutableLayout::parse(&bytes).unwrap()
}

#[test]
fn validates_the_boulder_layout() {
    assert_eq!(validate_boulder_layout(&layout_with_entry_segment(0x10_0000, 0x2000)), Ok(()));
    assert_eq!(
        validate_boulder_layout(&layout_with_entry_segment(0x20_0000, 0x2000)),
        Err(HandoffError::BoulderBootstrapOutsideExecutableSegment)
    );
    assert_eq!(
        validate_boulder_layout(&layout_with_entry_segment(0x10_0000, 0x4000_0000)),
        Err(HandoffError::BoulderSegmentOutsideEarlyMap)
    );
}

#[test]
fn region_and_module_ends() {
    let region = FirmwareMemoryRegion { start: 10, length: 5, kind: MemoryKind::Usable };
    assert_eq!(region.end(), Some(15));
    let region = FirmwareMemoryRegion { start: u64::MAX, length: 1, kind: MemoryKind::Usable };
    assert_eq!(region.end(), None);
    let module = BootModule { start: 1, bytes: 2, name: b"m" };
    assert_eq!(module.end(), Some(3));
    assert_eq!(FirmwareMemoryRegion::empty().length, 0);
}
