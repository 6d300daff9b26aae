use granite::elf::{
    ElfError, ExecutableLayout, ELF_HEADER_BYTES, EM_X86_64, ET_EXEC, MAXIMUM_LOAD_SEGMENTS,
    PF_EXECUTE, PROGRAM_HEADER_BYTES, PT_LOAD,
};

const PROGRAM_OFFSET: usize = ELF_HEADER_BYTES;
const SEGMENT_OFFSET: usize = 0x1000;

fn put_u16(bytes: &mut [u8], offset: usize, value: u16) {
    bytes[offset..offset + 2].copy_from_slice(&value.to_le_bytes());
}

fn put_u32(bytes: &mut [u8], offset: usize, value: u32) {
    bytes[offset..offset + 4].copy_from_slice(&value.to_le_bytes());
}

fn put_u64(bytes: &mut [u8], offset: usize, value: u64) {
    bytes[offset..offset + 8].copy_from_slice(&value.to_le_bytes());
}

fn image() -> Vec<u8> {
    let mut bytes = vec![0; 0x1100];
    bytes[..4].copy_from_slice(b"\x7fELF");
    bytes[4] = 2;
    bytes[5] = 1;
    bytes[6] = 1;
    put_u16(&mut bytes, 16, ET_EXEC);
    put_u16(&mut bytes, 18, EM_X86_64);
    put_u32(&mut bytes, 20, 1);
    put_u64(&mut bytes, 24, 0x1000);
    put_u64(&mut bytes, 32, PROGRAM_OFFSET as u64);
    put_u16(&mut bytes, 52, ELF_HEADER_BYTES as u16);
    put_u16(&mut bytes, 54, PROGRAM_HEADER_BYTES as u16);
    put_u16(&mut bytes, 56, 1);
    put_u32(&mut bytes, PROGRAM_OFFSET, PT_LOAD);
    put_u32(&mut bytes, PROGRAM_OFFSET + 4, PF_EXECUTE);
    put_u64(&mut bytes, PROGRAM_OFFSET + 8, SEGMENT_OFFSET as u64);
    put_u64(&mut bytes, PROGRAM_OFFSET + 16, 0x1000);
    put_u64(&mut bytes, PROGRAM_OFFSET + 24, 0x1000);
    put_u64(&mut bytes, PROGRAM_OFFSET + 32, 0x40);
    put_u64(&mut bytes, PROGRAM_OFFSET + 40, 0x80);
    put_u64(&mut bytes, PROGRAM_OFFSET + 48, 0x1000);
    bytes
}

/// Appends a copy of the first program header as header `index`, growing
/// the table, and returns the new header's offset.
fn add_header(bytes: &mut Vec<u8>, index: usize) -> usize {
    let offset = PROGRAM_OFFSET + index * PROGRAM_HEADER_BYTES;
    let first = bytes[PROGRAM_OFFSET..PROGRAM_OFFSET + PROGRAM_HEADER_BYTES].to_vec();
    bytes[offset..offset + PROGRAM_HEADER_BYTES].copy_from_slice(&first);
    put_u16(bytes, 56, (index + 1) as u16);
    offset
}

#[test]
fn accepts_bounded_executable_layout() {
    let layout = ExecutableLayout::parse(&image()).unwrap();
    assert_eq!(layout.entry(), 0x1000);
    assert_eq!(layout.segments().len(), 1);
    assert_eq!(layout.segments()[0].memory_bytes(), 0x80);
}

#[test]
fn rejects_entry_outside_executable_load_segment() {
    let mut bytes = image();
    put_u32(&mut bytes, PROGRAM_OFFSET + 4, 0);
    assert_eq!(
        ExecutableLayout::parse(&bytes),
        Err(ElfError::EntryOutsideExecutableSegment)
    );
}

#[test]
fn rejects_overlapping_physical_segments() {
    let mut bytes = image();
    put_u16(&mut bytes, 56, 2);
    let second = PROGRAM_OFFSET + PROGRAM_HEADER_BYTES;
    let first = bytes[PROGRAM_OFFSET..PROGRAM_OFFSET + PROGRAM_HEADER_BYTES].to_vec();
    bytes[second..second + PROGRAM_HEADER_BYTES].copy_from_slice(&first);
    put_u64(&mut bytes, second + 16, 0x3000);
    assert_eq!(
        ExecutableLayout::parse(&bytes),
        Err(ElfError::PhysicalOverlap)
    );
}

#[test]
fn segment_accessors_report_the_header_fields() {
    let layout = ExecutableLayout::parse(&image()).unwrap();
    let segment = layout.segments()[0];
    assert_eq!(segment.file_offset(), 0x1000);
    assert_eq!(segment.virtual_address(), 0x1000);
    assert_eq!(segment.physical_address(), 0x1000);
    assert_eq!(segment.file_bytes(), 0x40);
    assert!(segment.executable());
    assert_eq!(segment.file_end(), Some(0x1040));
    assert_eq!(segment.virtual_end(), Some(0x1080));
    assert_eq!(segment.physical_end(), Some(0x1080));
    assert!(layout.contains_executable_physical_address(0x1000));
    assert!(layout.contains_executable_physical_address(0x107f));
    assert!(!layout.contains_executable_physical_address(0x1080));
    assert!(!layout.contains_executable_physical_address(0xfff));
}

#[test]
fn rejects_each_header_field() {
    assert_eq!(ExecutableLayout::parse(&image()[..63]), Err(ElfError::TruncatedHeader));
    let cases: [(usize, u8, ElfError); 6] = [
        (0, 0x7e, ElfError::Magic),
        (3, b'G', ElfError::Magic),
        (4, 1, ElfError::UnsupportedEncoding),
        (5, 2, ElfError::UnsupportedEncoding),
        (6, 0, ElfError::UnsupportedEncoding),
        (16, 3, ElfError::UnsupportedType),
    ];
    for (offset, value, error) in cases {
        let mut bytes = image();
        bytes[offset] = value;
        assert_eq!(ExecutableLayout::parse(&bytes), Err(error));
    }
    let mut bytes = image();
    put_u16(&mut bytes, 18, 0x28);
    assert_eq!(ExecutableLayout::parse(&bytes), Err(ElfError::UnsupportedMachine));
    let mut bytes = image();
    put_u32(&mut bytes, 20, 2);
    assert_eq!(ExecutableLayout::parse(&bytes), Err(ElfError::UnsupportedVersion));
    let mut bytes = image();
    put_u16(&mut bytes, 52, 52);
    assert_eq!(ExecutableLayout::parse(&bytes), Err(ElfError::HeaderSize));
    let mut bytes = image();
    put_u16(&mut bytes, 54, 32);
    assert_eq!(ExecutableLayout::parse(&bytes), Err(ElfError::ProgramHeaderSize));
}

#[test]
fn rejects_program_tables_and_counts() {
    let mut bytes = image();
    put_u16(&mut bytes, 56, 0);
    assert_eq!(ExecutableLayout::parse(&bytes), Err(ElfError::NoLoadSegments));
    let mut bytes = image();
    put_u64(&mut bytes, 32, 0x10ff);
    assert_eq!(ExecutableLayout::parse(&bytes), Err(ElfError::ProgramTableOutsideImage));
    let mut bytes = image();
    put_u64(&mut bytes, 32, u64::MAX);
    assert_eq!(ExecutableLayout::parse(&bytes), Err(ElfError::ProgramTableOutsideImage));
    // A table whose only header is not PT_LOAD admits nothing.
    let mut bytes = image();
    put_u32(&mut bytes, PROGRAM_OFFSET, 4);
    assert_eq!(ExecutableLayout::parse(&bytes), Err(ElfError::NoLoadSegments));
}

#[test]
fn rejects_each_segment_rule() {
    let mut bytes = image();
    put_u64(&mut bytes, PROGRAM_OFFSET + 40, 0);
    assert_eq!(ExecutableLayout::parse(&bytes), Err(ElfError::SegmentSize));
    let mut bytes = image();
    put_u64(&mut bytes, PROGRAM_OFFSET + 32, 0x81);
    assert_eq!(ExecutableLayout::parse(&bytes), Err(ElfError::SegmentSize));
    let mut bytes = image();
    put_u64(&mut bytes, PROGRAM_OFFSET + 48, 0x800);
    assert_eq!(ExecutableLayout::parse(&bytes), Err(ElfError::SegmentAlignment));
    let mut bytes = image();
    put_u64(&mut bytes, PROGRAM_OFFSET + 48, 0x3000);
    assert_eq!(ExecutableLayout::parse(&bytes), Err(ElfError::SegmentAlignment));
    let mut bytes = image();
    put_u64(&mut bytes, PROGRAM_OFFSET + 24, 0x1800);
    assert_eq!(ExecutableLayout::parse(&bytes), Err(ElfError::SegmentAlignment));
    let mut bytes = image();
    put_u64(&mut bytes, PROGRAM_OFFSET + 32, 0x80);
    put_u64(&mut bytes, PROGRAM_OFFSET + 40, 0x200);
    put_u64(&mut bytes, PROGRAM_OFFSET + 32, 0x101);
    assert_eq!(ExecutableLayout::parse(&bytes), Err(ElfError::SegmentFileRange));
    let mut bytes = image();
    put_u64(&mut bytes, PROGRAM_OFFSET + 16, 0xffff_ffff_ffff_f000);
    put_u64(&mut bytes, PROGRAM_OFFSET + 24, 0x1000);
    put_u64(&mut bytes, PROGRAM_OFFSET + 40, 0x2000);
    put_u64(&mut bytes, PROGRAM_OFFSET + 32, 0x40);
    assert_eq!(ExecutableLayout::parse(&bytes), Err(ElfError::AddressOverflow));
}

#[test]
fn rejects_overlapping_virtual_segments_before_physical_ones() {
    let mut bytes = image();
    add_header(&mut bytes, 1);
    assert_eq!(ExecutableLayout::parse(&bytes), Err(ElfError::VirtualOverlap));
}

#[test]
fn accepts_disjoint_segments_in_header_order() {
    let mut bytes = image();
    let second = add_header(&mut bytes, 1);
    put_u64(&mut bytes, second + 16, 0x3000);
    put_u64(&mut bytes, second + 24, 0x3000);
    put_u32(&mut bytes, second + 4, 0);
    let layout = ExecutableLayout::parse(&bytes).unwrap();
    assert_eq!(layout.segments().len(), 2);
    assert_eq!(layout.segments()[1].virtual_address(), 0x3000);
    assert!(!layout.segments()[1].executable());
    assert!(!layout.contains_executable_physical_address(0x3000));
}

#[test]
fn rejects_more_than_the_maximum_load_segments() {
    let mut bytes = vec![0u8; 0x3000];
    let base = image();
    bytes[..base.len()].copy_from_slice(&base);
    for index in 1..=MAXIMUM_LOAD_SEGMENTS {
        let offset = add_header(&mut bytes, index);
        let address = 0x1000 + 0x1000 * index as u64 * 2;
        put_u64(&mut bytes, offset + 16, address);
        put_u64(&mut bytes, offset + 24, address);
    }
    assert_eq!(ExecutableLayout::parse(&bytes), Err(ElfError::TooManyLoadSegments));
}

#[test]
fn every_error_has_a_reason() {
    assert_eq!(ElfError::TruncatedHeader.reason(), "has a truncated ELF header");
    assert_eq!(ElfError::PhysicalOverlap.reason(), "has overlapping physical load segments");
    assert_eq!(
        ElfError::EntryOutsideExecutableSegment.reason(),
        "has no executable entry segment"
    );
}

#[test]
fn error_reasons_are_distinct_and_nonempty() {
    let errors = [
        ElfError::TruncatedHeader,
        ElfError::Magic,
        ElfError::UnsupportedEncoding,
        ElfError::UnsupportedType,
        ElfError::UnsupportedMachine,
        ElfError::UnsupportedVersion,
        ElfError::HeaderSize,
        ElfError::ProgramHeaderSize,
        ElfError::ProgramTableOutsideImage,
        ElfError::NoLoadSegments,
        ElfError::TooManyLoadSegments,
        ElfError::SegmentFileRange,
        ElfError::SegmentSize,
        ElfError::SegmentAlignment,
        ElfError::AddressOverflow,
        ElfError::VirtualOverlap,
        ElfError::PhysicalOverlap,
        ElfError::EntryOutsideExecutableSegment,
    ];
    for (i, a) in errors.iter().enumerate() {
        assert!(!a.reason().is_empty());
        for b in &errors[i + 1..] {
            assert_ne!(a.reason(), b.reason());
        }
    }
}
