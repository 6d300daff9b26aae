//! The placement decisions Granite takes around firmware allocations: page
//! counts, the deferred higher-half BSS, where segments, modules and the
//! bootstrap data may live, the firmware memory map, the framebuffer mode and
//! the ACPI root pointer.

use vstd::prelude::*;
use crate::bytes::zeros;
use crate::elf::{ExecutableLayout, LoadSegment, LoadSegmentView, physical_end_of, file_end_of};
use crate::handoff::{
    EARLY_MAPPED_PHYSICAL_LIMIT,
    FirmwareMemoryRegion,
    region_invalid,
    Framebuffer,
    HandoffError,
    MAXIMUM_MEMORY_REGIONS,
    MemoryKind,
    PAGE_BYTES,
    BootModule,
    ModuleView,
    module_invalid,
    module_views,
};

verus! {

/// Virtual addresses at and above this one are the kernel's higher half.
pub const HIGHER_HALF_BASE: u64 = 0xffff_8000_0000_0000;

/// The lowest physical address an Arach segment may occupy.
pub const ARACH_PHYSICAL_FLOOR: u64 = 0x10_0000;

#[derive(Clone, Copy, Debug, PartialEq, Eq, Structural)]
pub enum NativeHandoffError {
    Layout(HandoffError),
    PageCount,
    ArachPlacement(usize),
    ModulePlacement,
    BootInformationPlacement,
    AcpiRoot,
    GraphicsOutput,
    GraphicsFormat,
    BootstrapStackPlacement,
    DeferredBssPlacement,
}

impl From<HandoffError> for NativeHandoffError {
    fn from(error: HandoffError) -> (r: Self) {
        NativeHandoffError::Layout(error)
    }
}

impl vstd::std_specs::convert::FromSpecImpl<HandoffError> for NativeHandoffError {
    open spec fn obeys_from_spec() -> bool {
        true
    }

    open spec fn from_spec(error: HandoffError) -> Self {
        NativeHandoffError::Layout(error)
    }
}

// ---------------------------------------------------------------------------
// Pages and ranges.

/// The pages that hold `bytes` bytes, or `PageCount` when there are none or
/// the count does not fit.
pub open spec fn pages_for(bytes: u64) -> Result<usize, NativeHandoffError> {
    if bytes == 0 || bytes + (PAGE_BYTES - 1) > u64::MAX {
        Err(NativeHandoffError::PageCount)
    } else if (bytes + (PAGE_BYTES - 1)) / PAGE_BYTES as int > usize::MAX {
        Err(NativeHandoffError::PageCount)
    } else {
        Ok(((bytes + (PAGE_BYTES - 1)) / PAGE_BYTES as int) as usize)
    }
}

pub fn page_count(bytes: u64) -> (r: Result<usize, NativeHandoffError>)
    ensures
        r == pages_for(bytes),
{
    if bytes == 0 {
        return Err(NativeHandoffError::PageCount);
    }
    let rounded = match bytes.checked_add(PAGE_BYTES - 1) {
        Some(rounded) => rounded,
        None => return Err(NativeHandoffError::PageCount),
    };
    let pages = rounded / PAGE_BYTES;
    if pages > usize::MAX as u64 {
        return Err(NativeHandoffError::PageCount);
    }
    Ok(pages as usize)
}

/// `[start, end)` meets the deferred BSS range, if there is one.
pub open spec fn meets_deferred_bss(start: u64, end: u64, deferred_bss: Option<(u64, u64)>) -> bool {
    match deferred_bss {
        Some((reserved_start, reserved_end)) => start < reserved_end && reserved_start < end,
        None => false,
    }
}

pub fn overlaps_deferred_bss(start: u64, end: u64, deferred_bss: Option<(u64, u64)>) -> (r: bool)
    ensures
        r == meets_deferred_bss(start, end, deferred_bss),
{
    match deferred_bss {
        Some((reserved_start, reserved_end)) => start < reserved_end && reserved_start < end,
        None => false,
    }
}

/// A segment with no file bytes in the higher half: its physical range is
/// reserved, so no module or bootstrap allocation may overlap it.
pub open spec fn is_deferred_bss(s: LoadSegmentView) -> bool {
    s.file_bytes == 0 && s.virtual_address >= HIGHER_HALF_BASE
}

/// The physical range of the deferred BSS among `segments`, taken in order:
/// there is at most one, and its end must fit.
pub open spec fn deferred_bss_scan(segments: Seq<LoadSegmentView>) -> Result<
    Option<(u64, u64)>,
    NativeHandoffError,
>
    decreases segments.len(),
{
    if segments.len() == 0 {
        Ok(None)
    } else {
        match deferred_bss_scan(segments.drop_last()) {
            Err(e) => Err(e),
            Ok(found) => {
                let s = segments.last();
                if !is_deferred_bss(s) {
                    Ok(found)
                } else if physical_end_of(s) > u64::MAX {
                    Err(NativeHandoffError::DeferredBssPlacement)
                } else if found is Some {
                    Err(NativeHandoffError::DeferredBssPlacement)
                } else {
                    Ok(Some((s.physical_address, physical_end_of(s) as u64)))
                }
            },
        }
    }
}

pub fn deferred_bss_range(layout: &ExecutableLayout) -> (r: Result<Option<(u64, u64)>, NativeHandoffError>)
    ensures
        r == deferred_bss_scan(layout@.segments),
{
    let segments = layout.segments();
    let ghost views = layout@.segments;
    let mut deferred: Option<(u64, u64)> = None;
    let mut index: usize = 0;
    assert(views.take(0) =~= Seq::<LoadSegmentView>::empty());
    while index < segments.len()
        invariant
            index <= segments@.len(),
            views == layout@.segments,
            segments@.len() == views.len(),
            segments@.map_values(|s: LoadSegment| s@) == views,
            deferred_bss_scan(views.take(index as int)) == Ok::<
                Option<(u64, u64)>,
                NativeHandoffError,
            >(deferred),
        decreases segments@.len() - index,
    {
        let segment = segments[index];
        assert(views[index as int] == segment@);
        assert(views.take(index + 1).drop_last() =~= views.take(index as int));
        if segment.file_bytes() != 0 || segment.virtual_address() < HIGHER_HALF_BASE {
            index = index + 1;
            continue;
        }
        let end = match segment.physical_end() {
            Some(end) => end,
            None => {
                proof {
                    lemma_deferred_bss_error_stays(views, index + 1);
                }
                return Err(NativeHandoffError::DeferredBssPlacement);
            },
        };
        if deferred.is_some() {
            proof {
                lemma_deferred_bss_error_stays(views, index + 1);
            }
            return Err(NativeHandoffError::DeferredBssPlacement);
        }
        deferred = Some((segment.physical_address(), end));
        index = index + 1;
    }
    assert(views.take(views.len() as int) =~= views);
    Ok(deferred)
}

proof fn lemma_deferred_bss_error_stays(segments: Seq<LoadSegmentView>, k: int)
    requires
        0 <= k <= segments.len(),
        deferred_bss_scan(segments.take(k)) is Err,
    ensures
        deferred_bss_scan(segments) == deferred_bss_scan(segments.take(k)),
    decreases segments.len() - k,
{
    if k < segments.len() {
        assert(segments.take(k + 1).drop_last() =~= segments.take(k));
        lemma_deferred_bss_error_stays(segments, k + 1);
    } else {
        assert(segments.take(k) =~= segments);
    }
}

/// Only higher-half segments without file bytes bear on the deferred BSS:
/// inserting any other segment anywhere leaves `deferred_bss_range`'s
/// result unchanged.
pub proof fn lemma_deferred_bss_ignores_other_segments(
    segments: Seq<LoadSegmentView>,
    i: int,
    s: LoadSegmentView,
)
    requires
        0 <= i <= segments.len(),
        s.file_bytes != 0 || s.virtual_address < 0xffff_8000_0000_0000u64,
    ensures
        deferred_bss_scan(segments.insert(i, s)) == deferred_bss_scan(segments),
    decreases segments.len(),
{
    let grown = segments.insert(i, s);
    if i == segments.len() {
        assert(grown.drop_last() =~= segments);
    } else {
        lemma_deferred_bss_ignores_other_segments(segments.drop_last(), i, s);
        assert(grown.drop_last() =~= segments.drop_last().insert(i, s));
        assert(grown.last() == segments.last());
    }
}

/// The deferred BSS that `deferred_bss_range` reports is the physical range
/// of a segment with no file bytes at a virtual address of at least
/// `0xffff_8000_0000_0000`; and when it reports none, there is no such
/// segment.
pub proof fn lemma_deferred_bss_is_a_higher_half_bss(segments: Seq<LoadSegmentView>)
    ensures
        deferred_bss_scan(segments) matches Ok(Some((start, end))) ==> exists|j: int|
            0 <= j < segments.len() && (#[trigger] segments[j]).file_bytes == 0
                && segments[j].virtual_address >= 0xffff_8000_0000_0000u64 && start
                == segments[j].physical_address && end == segments[j].physical_address
                + segments[j].memory_bytes,
        deferred_bss_scan(segments) == Ok::<Option<(u64, u64)>, NativeHandoffError>(None) ==> forall|j: int|
            0 <= j < segments.len() ==> !((#[trigger] segments[j]).file_bytes == 0
                && segments[j].virtual_address >= 0xffff_8000_0000_0000u64),
        deferred_bss_scan(segments) is Ok ==> forall|i: int, j: int|
            #![trigger segments[i], segments[j]]
            0 <= i < j < segments.len() && segments[i].file_bytes == 0 && segments[i].virtual_address
                >= 0xffff_8000_0000_0000u64 ==> !(segments[j].file_bytes == 0
                && segments[j].virtual_address >= 0xffff_8000_0000_0000u64),
    decreases segments.len(),
{
    if segments.len() > 0 {
        let rest = segments.drop_last();
        lemma_deferred_bss_is_a_higher_half_bss(rest);
        if let Ok(Some((start, end))) = deferred_bss_scan(segments) {
            if !(deferred_bss_scan(rest) == Ok::<Option<(u64, u64)>, NativeHandoffError>(None)) {
                let j = choose|j: int|
                    0 <= j < rest.len() && (#[trigger] rest[j]).file_bytes == 0
                        && rest[j].virtual_address >= 0xffff_8000_0000_0000u64 && start
                        == rest[j].physical_address && end == rest[j].physical_address
                        + rest[j].memory_bytes;
                assert(segments[j] == rest[j]);
            } else {
                assert(segments[segments.len() - 1] == segments.last());
            }
        }
        if deferred_bss_scan(segments) == Ok::<Option<(u64, u64)>, NativeHandoffError>(None) {
            assert forall|j: int| 0 <= j < segments.len() implies !((#[trigger] segments[j]).file_bytes
                == 0 && segments[j].virtual_address >= 0xffff_8000_0000_0000u64) by {
                if j < rest.len() {
                    assert(segments[j] == rest[j]);
                }
            }
        }
        if deferred_bss_scan(segments) is Ok {
            assert forall|i: int, j: int|
                #![trigger segments[i], segments[j]]
                0 <= i < j < segments.len() && segments[i].file_bytes == 0 && segments[i].virtual_address
                    >= 0xffff_8000_0000_0000u64 implies !(segments[j].file_bytes == 0
                    && segments[j].virtual_address >= 0xffff_8000_0000_0000u64) by {
                assert(segments[i] == rest[i]);
                if j < rest.len() {
                    assert(segments[j] == rest[j]);
                } else {
                    assert(deferred_bss_scan(rest) != Ok::<Option<(u64, u64)>, NativeHandoffError>(None));
                }
            }
        }
    }
}

/// Where an allocation of `bytes` bytes at `start` may stand: wholly inside
/// the early identity map and clear of the deferred BSS. The end of the
/// range, or `failure`.
pub open spec fn early_placement(
    start: u64,
    bytes: u64,
    deferred_bss: Option<(u64, u64)>,
    failure: NativeHandoffError,
) -> Result<u64, NativeHandoffError> {
    if start + bytes > u64::MAX {
        Err(failure)
    } else if start + bytes > EARLY_MAPPED_PHYSICAL_LIMIT || meets_deferred_bss(
        start,
        (start + bytes) as u64,
        deferred_bss,
    ) {
        Err(failure)
    } else {
        Ok((start + bytes) as u64)
    }
}

/// Checks a firmware allocation for a module, the bootstrap stack or the
/// boot information against the early map and the deferred BSS.
pub fn check_early_placement(
    start: u64,
    bytes: u64,
    deferred_bss: Option<(u64, u64)>,
    failure: NativeHandoffError,
) -> (r: Result<u64, NativeHandoffError>)
    ensures
        r == early_placement(start, bytes, deferred_bss, failure),
{
    let end = match start.checked_add(bytes) {
        Some(end) => end,
        None => return Err(failure),
    };
    if end > EARLY_MAPPED_PHYSICAL_LIMIT || overlaps_deferred_bss(start, end, deferred_bss) {
        return Err(failure);
    }
    Ok(end)
}

/// Whether an Arach segment may be placed at its physical address: its range
/// must fit, start at or above `ARACH_PHYSICAL_FLOOR` and end inside the
/// early identity map.
pub open spec fn arach_segment_placement(s: LoadSegmentView, index: usize) -> Result<(), NativeHandoffError> {
    if physical_end_of(s) > u64::MAX || s.physical_address < ARACH_PHYSICAL_FLOOR || physical_end_of(s)
        > EARLY_MAPPED_PHYSICAL_LIMIT {
        Err(NativeHandoffError::ArachPlacement(index))
    } else {
        Ok(())
    }
}

/// Checks that Arach segment `index` may be placed at its physical address.
/// Every admitted segment is placed, the deferred BSS included.
pub fn check_arach_segment(segment: LoadSegment, index: usize) -> (r: Result<(), NativeHandoffError>)
    ensures
        r == arach_segment_placement(segment@, index),
{
    let end = match segment.physical_end() {
        Some(end) => end,
        None => return Err(NativeHandoffError::ArachPlacement(index)),
    };
    if segment.physical_address() < ARACH_PHYSICAL_FLOOR || end > EARLY_MAPPED_PHYSICAL_LIMIT {
        return Err(NativeHandoffError::ArachPlacement(index));
    }
    Ok(())
}

/// What loading an Arach segment involves: the offset and length of the
/// bytes copied from the image, and the segment's memory size; the bytes from
/// the file size up to the memory size are the tail that is zeroed.
pub open spec fn arach_copy_plan(s: LoadSegmentView, index: usize, image_bytes: usize) -> Result<
    (usize, usize, usize),
    NativeHandoffError,
> {
    if s.file_offset > usize::MAX || s.file_bytes > usize::MAX || s.memory_bytes > usize::MAX
        || file_end_of(s) > usize::MAX || file_end_of(s) > image_bytes || s.file_bytes > s.memory_bytes {
        Err(NativeHandoffError::ArachPlacement(index))
    } else {
        Ok((s.file_offset as usize, s.file_bytes as usize, s.memory_bytes as usize))
    }
}

pub fn plan_arach_copy(segment: LoadSegment, index: usize, image_bytes: usize) -> (r: Result<
    (usize, usize, usize),
    NativeHandoffError,
>)
    ensures
        r == arach_copy_plan(segment@, index, image_bytes),
        r matches Ok((offset, length, memory)) ==> offset + length <= image_bytes && length <= memory
            && memory == segment@.memory_bytes,
{
    let file_offset = segment.file_offset();
    let file_bytes = segment.file_bytes();
    let memory_bytes = segment.memory_bytes();
    if file_offset > usize::MAX as u64 || file_bytes > usize::MAX as u64 || memory_bytes
        > usize::MAX as u64 {
        return Err(NativeHandoffError::ArachPlacement(index));
    }
    let file_offset = file_offset as usize;
    let file_bytes = file_bytes as usize;
    let memory_bytes = memory_bytes as usize;
    let source_end = match file_offset.checked_add(file_bytes) {
        Some(end) => end,
        None => return Err(NativeHandoffError::ArachPlacement(index)),
    };
    if source_end > image_bytes || file_bytes > memory_bytes {
        return Err(NativeHandoffError::ArachPlacement(index));
    }
    Ok((file_offset, file_bytes, memory_bytes))
}

/// Loading an Arach segment into `capacity` bytes of memory allocated at its
/// physical address: the copy plan, or why it cannot be carried out.
pub open spec fn arach_load_plan(s: LoadSegmentView, index: usize, image_bytes: usize, capacity: nat) -> Result<
    (usize, usize, usize),
    NativeHandoffError,
> {
    match arach_copy_plan(s, index, image_bytes) {
        Err(e) => Err(e),
        Ok((offset, length, memory)) => if memory > capacity {
            Err(NativeHandoffError::ArachPlacement(index))
        } else {
            Ok((offset, length, memory))
        },
    }
}

/// Loads Arach segment `index` into `target`, the memory allocated at its
/// physical address: its file bytes are copied to the start, the tail up to
/// its memory size is zeroed, and no other byte is written.
pub fn load_arach_segment(target: &mut [u8], image: &[u8], segment: LoadSegment, index: usize) -> (r:
    Result<(), NativeHandoffError>)
    ensures
        final(target)@.len() == old(target)@.len(),
        match arach_load_plan(segment@, index, image@.len() as usize, old(target)@.len()) {
            Ok((offset, length, memory)) => r is Ok && final(target)@ == image@.subrange(
                offset as int,
                offset + length,
            ) + zeros((memory - length) as nat) + old(target)@.skip(memory as int),
            Err(e) => r == Err::<(), NativeHandoffError>(e) && final(target)@ == old(target)@,
        },
{
    let (offset, length, memory) = match plan_arach_copy(segment, index, image.len()) {
        Ok(plan) => plan,
        Err(e) => return Err(e),
    };
    if memory > target.len() {
        return Err(NativeHandoffError::ArachPlacement(index));
    }
    let ghost origin = target@;
    let ghost source = image@.subrange(offset as int, offset + length);
    let image_len = image.len();
    let mut i: usize = 0;
    while i < length
        invariant
            image_len == image@.len(),
            offset + length <= image@.len(),
            length <= memory <= origin.len(),
            source == image@.subrange(offset as int, offset + length),
            i <= length,
            target@.len() == origin.len(),
            target@ == source.take(i as int) + origin.skip(i as int),
        decreases length - i,
    {
        target[i] = image[offset + i];
        i = i + 1;
        assert(target@ =~= source.take(i as int) + origin.skip(i as int));
    }
    assert(source.take(length as int) =~= source);
    while i < memory
        invariant
            length <= i <= memory <= origin.len(),
            source.len() == length,
            target@.len() == origin.len(),
            target@ == source + zeros((i - length) as nat) + origin.skip(i as int),
        decreases memory - i,
    {
        target[i] = 0;
        i = i + 1;
        assert(target@ =~= source + zeros((i - length) as nat) + origin.skip(i as int));
    }
    Ok(())
}

// ---------------------------------------------------------------------------
// The module table.

/// The largest module table Granite hands over: Push and Crest, the five
/// desktop services and the five GSP firmware images.
pub const MAXIMUM_BOOT_MODULES: usize = 12;

/// A module copied below the early map: where it starts and its byte count.
#[derive(Clone, Copy, Debug, PartialEq, Eq, Structural)]
pub struct PlacedModule {
    pub physical_address: u64,
    pub bytes: u64,
}

/// The bytes of an ASCII name.
pub open spec fn ascii_bytes(name: Seq<char>) -> Seq<u8> {
    Seq::new(name.len(), |i: int| name[i] as u8)
}

/// The table entry of a placed module named `name`.
pub open spec fn placed_entry(m: PlacedModule, name: Seq<char>) -> ModuleView {
    ModuleView { start: m.physical_address, bytes: m.bytes, name: ascii_bytes(name) }
}

/// The modules Granite describes to Boulder, in order: Push, Crest, then
/// the desktop services when selected, then the GSP firmware when selected.
pub open spec fn module_table_entries(
    push: PlacedModule,
    crest: PlacedModule,
    services: Option<[PlacedModule; 5]>,
    firmware: Option<[PlacedModule; 5]>,
) -> Seq<ModuleView> {
    seq![placed_entry(push, "push"@), placed_entry(crest, "crest"@)] + match services {
        Some(s) => seq![
            placed_entry(s[0], "dbus-broker"@),
            placed_entry(s[1], "cosmic-comp"@),
            placed_entry(s[2], "cosmic-greeter"@),
            placed_entry(s[3], "cosmic-session"@),
            placed_entry(s[4], "xdg-desktop-portal-cosmic"@),
        ],
        None => Seq::empty(),
    } + match firmware {
        Some(f) => seq![
            placed_entry(f[0], "hermes-gsp"@),
            placed_entry(f[1], "hermes-sec2"@),
            placed_entry(f[2], "hermes-gsp-bootloader"@),
            placed_entry(f[3], "hermes-booter-load"@),
            placed_entry(f[4], "hermes-booter-unload"@),
        ],
        None => Seq::empty(),
    }
}

/// Writes entry `count` of the table: the placed module `m`, named `name`.
fn append_module(
    table: &mut [BootModule<'static>; MAXIMUM_BOOT_MODULES],
    count: usize,
    m: PlacedModule,
    name: &'static str,
) -> (r: usize)
    requires
        count < MAXIMUM_BOOT_MODULES,
        vstd::string::is_ascii(name),
    ensures
        r == count + 1,
        module_views(final(table)@.take(r as int)) == module_views(old(table)@.take(count as int)).push(
            placed_entry(m, name@),
        ),
{
    proof {
        vstd::string::is_ascii_spec_bytes(name);
    }
    table[count] = BootModule { start: m.physical_address, bytes: m.bytes, name: name.as_bytes() };
    proof {
        assert(table@[count as int]@ == placed_entry(m, name@)) by {
            assert(table@[count as int]@.name =~= ascii_bytes(name@));
        }
        assert(module_views(table@.take(count + 1)) =~= module_views(old(table)@.take(count as int)).push(
            placed_entry(m, name@),
        )) by {
            assert forall|i: int| 0 <= i < count implies table@.take(count + 1)[i] == old(table)@.take(
                count as int,
            )[i] by {}
        }
    }
    count + 1
}

/// Builds the fixed module table while allocation services are still live:
/// nothing after firmware exit may grow a vector.
pub fn module_table(
    push: PlacedModule,
    crest: PlacedModule,
    services: Option<[PlacedModule; 5]>,
    firmware: Option<[PlacedModule; 5]>,
) -> (r: ([BootModule<'static>; MAXIMUM_BOOT_MODULES], usize))
    ensures
        r.1 <= MAXIMUM_BOOT_MODULES,
        module_views(r.0@.take(r.1 as int)) == module_table_entries(push, crest, services, firmware),
{
    let empty = BootModule { start: 0, bytes: 0, name: "".as_bytes() };
    let mut table = [empty; 12];
    assert(module_views(table@.take(0)) =~= Seq::<ModuleView>::empty());
    proof {
        reveal_strlit("push");
        reveal_strlit("crest");
    }
    let count = append_module(&mut table, 0, push, "push");
    let count = append_module(&mut table, count, crest, "crest");
    let count = match services {
        Some(s) => {
            proof {
                reveal_strlit("dbus-broker");
                reveal_strlit("cosmic-comp");
                reveal_strlit("cosmic-greeter");
                reveal_strlit("cosmic-session");
                reveal_strlit("xdg-desktop-portal-cosmic");
            }
            let count = append_module(&mut table, count, s[0], "dbus-broker");
            let count = append_module(&mut table, count, s[1], "cosmic-comp");
            let count = append_module(&mut table, count, s[2], "cosmic-greeter");
            let count = append_module(&mut table, count, s[3], "cosmic-session");
            append_module(&mut table, count, s[4], "xdg-desktop-portal-cosmic")
        },
        None => count,
    };
    let count = match firmware {
        Some(f) => {
            proof {
                reveal_strlit("hermes-gsp");
                reveal_strlit("hermes-sec2");
                reveal_strlit("hermes-gsp-bootloader");
                reveal_strlit("hermes-booter-load");
                reveal_strlit("hermes-booter-unload");
            }
            let count = append_module(&mut table, count, f[0], "hermes-gsp");
            let count = append_module(&mut table, count, f[1], "hermes-sec2");
            let count = append_module(&mut table, count, f[2], "hermes-gsp-bootloader");
            let count = append_module(&mut table, count, f[3], "hermes-booter-load");
            append_module(&mut table, count, f[4], "hermes-booter-unload")
        },
        None => count,
    };
    assert(module_views(table@.take(count as int)) =~= module_table_entries(push, crest, services, firmware));
    (table, count)
}

/// A module placed inside the early identity map, holding at least one byte.
pub open spec fn placed_in_early_map(m: PlacedModule) -> bool {
    m.bytes > 0 && m.physical_address + m.bytes <= EARLY_MAPPED_PHYSICAL_LIMIT
}

/// A nonempty ASCII name without NUL names a Multiboot2 module.
proof fn lemma_name_admissible(name: Seq<char>)
    requires
        name.len() > 0,
        forall|i: int| 0 <= i < name.len() ==> 0 < (#[trigger] name[i]) as int && (name[i] as int) < 128,
    ensures
        ascii_bytes(name).len() > 0,
        !ascii_bytes(name).contains(0u8),
{
    if ascii_bytes(name).contains(0u8) {
        let k = choose|k: int| 0 <= k < ascii_bytes(name).len() && ascii_bytes(name)[k] == 0u8;
        assert(ascii_bytes(name)[k] == name[k] as u8);
        assert((name[k] as u8) as int == name[k] as int);
    }
}

/// Modules that placement kept inside the early identity map make a table
/// that the handoff record takes as it is: every name is nonempty and free
/// of NUL, and every module ends below 4 GiB.
pub proof fn lemma_module_table_admissible(
    push: PlacedModule,
    crest: PlacedModule,
    services: Option<[PlacedModule; 5]>,
    firmware: Option<[PlacedModule; 5]>,
)
    requires
        placed_in_early_map(push),
        placed_in_early_map(crest),
        services matches Some(s) ==> forall|i: int| 0 <= i < 5 ==> placed_in_early_map(#[trigger] s[i]),
        firmware matches Some(f) ==> forall|i: int| 0 <= i < 5 ==> placed_in_early_map(#[trigger] f[i]),
    ensures
        module_table_entries(push, crest, services, firmware).len() <= MAXIMUM_BOOT_MODULES,
        forall|i: int|
            0 <= i < module_table_entries(push, crest, services, firmware).len() ==> !module_invalid(
                #[trigger] module_table_entries(push, crest, services, firmware)[i],
            ),
{
    reveal_strlit("push");
    reveal_strlit("crest");
    reveal_strlit("dbus-broker");
    reveal_strlit("cosmic-comp");
    reveal_strlit("cosmic-greeter");
    reveal_strlit("cosmic-session");
    reveal_strlit("xdg-desktop-portal-cosmic");
    reveal_strlit("hermes-gsp");
    reveal_strlit("hermes-sec2");
    reveal_strlit("hermes-gsp-bootloader");
    reveal_strlit("hermes-booter-load");
    reveal_strlit("hermes-booter-unload");
    lemma_name_admissible("push"@);
    lemma_name_admissible("crest"@);
    lemma_name_admissible("dbus-broker"@);
    lemma_name_admissible("cosmic-comp"@);
    lemma_name_admissible("cosmic-greeter"@);
    lemma_name_admissible("cosmic-session"@);
    lemma_name_admissible("xdg-desktop-portal-cosmic"@);
    lemma_name_admissible("hermes-gsp"@);
    lemma_name_admissible("hermes-sec2"@);
    lemma_name_admissible("hermes-gsp-bootloader"@);
    lemma_name_admissible("hermes-booter-load"@);
    lemma_name_admissible("hermes-booter-unload"@);
}

// ---------------------------------------------------------------------------
// The firmware memory map.

/// One firmware memory descriptor, as plain values: its UEFI memory type,
/// its first physical address and its number of 4 KiB pages.
#[derive(Clone, Copy, Debug, PartialEq, Eq, Structural)]
pub struct MemoryDescriptor {
    pub memory_type: u32,
    pub phys_start: u64,
    pub page_count: u64,
}

/// The Multiboot2 kind of a UEFI memory type: conventional memory and boot
/// services code and data are usable once boot services end.
pub open spec fn kind_of_memory_type(memory_type: u32) -> MemoryKind {
    if memory_type == 7 || memory_type == 3 || memory_type == 4 {
        MemoryKind::Usable
    } else if memory_type == 9 {
        MemoryKind::AcpiReclaimable
    } else if memory_type == 10 {
        MemoryKind::AcpiNonVolatile
    } else if memory_type == 8 {
        MemoryKind::Defective
    } else {
        MemoryKind::Reserved
    }
}

/// How UEFI memory types become Multiboot2 kinds: boot-services code (3),
/// boot-services data (4) and conventional memory (7) are usable, and
/// nothing else is; ACPI reclaim memory (9) is ACPI-reclaimable, ACPI NVS
/// (10) is ACPI non-volatile, unusable memory (8) is defective; every other
/// type, runtime-services code (5) and data (6) included, is reserved.
pub proof fn lemma_memory_type_kinds(memory_type: u32)
    ensures
        (kind_of_memory_type(memory_type) == MemoryKind::Usable) <==> (memory_type == 3 || memory_type
            == 4 || memory_type == 7),
        (kind_of_memory_type(memory_type) == MemoryKind::AcpiReclaimable) <==> memory_type == 9,
        (kind_of_memory_type(memory_type) == MemoryKind::AcpiNonVolatile) <==> memory_type == 10,
        (kind_of_memory_type(memory_type) == MemoryKind::Defective) <==> memory_type == 8,
        (kind_of_memory_type(memory_type) == MemoryKind::Reserved) <==> !(memory_type == 3
            || memory_type == 4 || memory_type == 7 || memory_type == 8 || memory_type == 9
            || memory_type == 10),
        kind_of_memory_type(5) == MemoryKind::Reserved,
        kind_of_memory_type(6) == MemoryKind::Reserved,
{
}

pub fn memory_kind_of(memory_type: u32) -> (r: MemoryKind)
    ensures
        r == kind_of_memory_type(memory_type),
        (r == MemoryKind::Usable) == (memory_type == 3 || memory_type == 4 || memory_type == 7),
        memory_type == 5 || memory_type == 6 ==> r == MemoryKind::Reserved,
{
    if memory_type == 7 || memory_type == 3 || memory_type == 4 {
        MemoryKind::Usable
    } else if memory_type == 9 {
        MemoryKind::AcpiReclaimable
    } else if memory_type == 10 {
        MemoryKind::AcpiNonVolatile
    } else if memory_type == 8 {
        MemoryKind::Defective
    } else {
        MemoryKind::Reserved
    }
}

pub open spec fn region_end(r: FirmwareMemoryRegion) -> int {
    r.start + r.length
}

/// The regions after one more descriptor: empty descriptors are skipped, a
/// descriptor that continues the last region with the same kind extends it,
/// any other starts a new region.
pub open spec fn absorb_descriptor(regions: Seq<FirmwareMemoryRegion>, d: MemoryDescriptor) -> Result<
    Seq<FirmwareMemoryRegion>,
    HandoffError,
> {
    if d.page_count * PAGE_BYTES > u64::MAX {
        Err(HandoffError::InvalidMemoryRegion)
    } else if d.page_count == 0 {
        Ok(regions)
    } else if d.phys_start + d.page_count * PAGE_BYTES > u64::MAX {
        Err(HandoffError::InvalidMemoryRegion)
    } else {
        let kind = kind_of_memory_type(d.memory_type);
        let length = d.page_count * PAGE_BYTES;
        if regions.len() > 0 && regions.last().kind == kind && region_end(regions.last())
            == d.phys_start {
            if regions.last().length + length > u64::MAX {
                Err(HandoffError::InvalidMemoryRegion)
            } else {
                Ok(
                    regions.update(
                        regions.len() - 1,
                        FirmwareMemoryRegion {
                            start: regions.last().start,
                            length: (regions.last().length + length) as u64,
                            kind,
                        },
                    ),
                )
            }
        } else if regions.len() >= MAXIMUM_MEMORY_REGIONS {
            Err(HandoffError::TooManyMemoryRegions)
        } else {
            Ok(regions.push(FirmwareMemoryRegion { start: d.phys_start, length: length as u64, kind }))
        }
    }
}

/// The regions of a whole memory map, in descriptor order.
pub open spec fn collected_regions(descriptors: Seq<MemoryDescriptor>) -> Result<
    Seq<FirmwareMemoryRegion>,
    HandoffError,
>
    decreases descriptors.len(),
{
    if descriptors.len() == 0 {
        Ok(Seq::empty())
    } else {
        match collected_regions(descriptors.drop_last()) {
            Err(e) => Err(e),
            Ok(regions) => absorb_descriptor(regions, descriptors.last()),
        }
    }
}

/// What Granite hands Boulder for a memory map: at least one region.
pub open spec fn memory_map_outcome(descriptors: Seq<MemoryDescriptor>) -> Result<
    Seq<FirmwareMemoryRegion>,
    HandoffError,
> {
    match collected_regions(descriptors) {
        Err(e) => Err(e),
        Ok(regions) => if regions.len() == 0 {
            Err(HandoffError::InvalidMemoryRegion)
        } else {
            Ok(regions)
        },
    }
}

/// Folds one descriptor into the first `count` regions of `target`.
pub fn absorb_memory_descriptor(
    target: &mut [FirmwareMemoryRegion; MAXIMUM_MEMORY_REGIONS],
    count: usize,
    descriptor: MemoryDescriptor,
) -> (r: Result<usize, HandoffError>)
    requires
        count <= MAXIMUM_MEMORY_REGIONS,
    ensures
        match absorb_descriptor(old(target)@.take(count as int), descriptor) {
            Ok(regions) => r == Ok::<usize, HandoffError>(regions.len() as usize) && final(target)@.take(
                regions.len() as int,
            ) == regions && final(target)@.skip(regions.len() as int) == old(target)@.skip(
                regions.len() as int,
            ),
            Err(e) => r == Err::<usize, HandoffError>(e) && final(target)@ == old(target)@,
        },
        r matches Ok(c) ==> c <= MAXIMUM_MEMORY_REGIONS,
{
    let ghost regions = old(target)@.take(count as int);
    let length = match descriptor.page_count.checked_mul(PAGE_BYTES) {
        Some(length) => length,
        None => return Err(HandoffError::InvalidMemoryRegion),
    };
    if length == 0 {
        return Ok(count);
    }
    let region = FirmwareMemoryRegion {
        start: descriptor.phys_start,
        length,
        kind: memory_kind_of(descriptor.memory_type),
    };
    if region.end().is_none() {
        return Err(HandoffError::InvalidMemoryRegion);
    }
    if count > 0 {
        let previous = target[count - 1];
        assert(previous == regions.last());
        let continues = previous.kind == region.kind && match previous.end() {
            Some(end) => end == region.start,
            None => false,
        };
        if continues {
            let merged = match previous.length.checked_add(region.length) {
                Some(merged) => merged,
                None => return Err(HandoffError::InvalidMemoryRegion),
            };
            target[count - 1] = FirmwareMemoryRegion {
                start: previous.start,
                length: merged,
                kind: previous.kind,
            };
            assert(target@.take(count as int) =~= regions.update(
                regions.len() - 1,
                FirmwareMemoryRegion { start: previous.start, length: merged, kind: region.kind },
            ));
            assert(target@.skip(count as int) =~= old(target)@.skip(count as int));
            return Ok(count);
        }
    }
    if count >= MAXIMUM_MEMORY_REGIONS {
        return Err(HandoffError::TooManyMemoryRegions);
    }
    target[count] = region;
    assert(target@.take(count + 1) =~= regions.push(region));
    assert(target@.skip(count + 1) =~= old(target)@.skip(count + 1));
    Ok(count + 1)
}

/// Converts the firmware memory map into Multiboot2 regions in `target`,
/// merging contiguous descriptors of one kind.
pub fn collect_memory_regions(
    descriptors: &[MemoryDescriptor],
    target: &mut [FirmwareMemoryRegion; MAXIMUM_MEMORY_REGIONS],
) -> (r: Result<usize, HandoffError>)
    ensures
        match memory_map_outcome(descriptors@) {
            Ok(regions) => r == Ok::<usize, HandoffError>(regions.len() as usize) && final(target)@.take(
                regions.len() as int,
            ) == regions && final(target)@.skip(regions.len() as int) == old(target)@.skip(
                regions.len() as int,
            ),
            Err(e) => r == Err::<usize, HandoffError>(e),
        },
{
    let mut count: usize = 0;
    let mut index: usize = 0;
    assert(descriptors@.take(0) =~= Seq::<MemoryDescriptor>::empty());
    assert(target@.take(0) =~= Seq::<FirmwareMemoryRegion>::empty());
    while index < descriptors.len()
        invariant
            index <= descriptors@.len(),
            count <= MAXIMUM_MEMORY_REGIONS,
            target@.skip(count as int) == old(target)@.skip(count as int),
            collected_regions(descriptors@.take(index as int)) == Ok::<
                Seq<FirmwareMemoryRegion>,
                HandoffError,
            >(target@.take(count as int)),
        decreases descriptors@.len() - index,
    {
        let ghost before = target@.take(count as int);
        assert(descriptors@.take(index + 1).drop_last() =~= descriptors@.take(index as int));
        let ghost skipped = target@.skip(count as int);
        match absorb_memory_descriptor(target, count, descriptors[index]) {
            Ok(next) => {
                proof {
                    assert(target@.skip(next as int) =~= old(target)@.skip(next as int)) by {
                        assert(next >= count);
                        assert forall|k: int| 0 <= k < target@.skip(next as int).len() implies target@.skip(
                            next as int,
                        )[k] == old(target)@.skip(next as int)[k] by {
                            assert(skipped[next - count + k] == old(target)@.skip(count as int)[next - count + k]);
                        }
                    }
                }
                count = next;
            },
            Err(e) => {
                proof {
                    lemma_collected_error_stays(descriptors@, index + 1);
                }
                return Err(e);
            },
        }
        index = index + 1;
    }
    assert(descriptors@.take(descriptors@.len() as int) =~= descriptors@);
    if count == 0 {
        return Err(HandoffError::InvalidMemoryRegion);
    }
    Ok(count)
}

proof fn lemma_collected_error_stays(descriptors: Seq<MemoryDescriptor>, k: int)
    requires
        0 <= k <= descriptors.len(),
        collected_regions(descriptors.take(k)) is Err,
    ensures
        collected_regions(descriptors) == collected_regions(descriptors.take(k)),
    decreases descriptors.len() - k,
{
    if k < descriptors.len() {
        assert(descriptors.take(k + 1).drop_last() =~= descriptors.take(k));
        lemma_collected_error_stays(descriptors, k + 1);
    } else {
        assert(descriptors.take(k) =~= descriptors);
    }
}

/// The regions handed to Boulder: at most `MAXIMUM_MEMORY_REGIONS`, none
/// empty, none past the end of the address space, and no two neighbours of
/// one kind that touch (those are merged).
pub open spec fn regions_sound(regions: Seq<FirmwareMemoryRegion>) -> bool {
    &&& regions.len() <= MAXIMUM_MEMORY_REGIONS
    &&& forall|i: int|
        0 <= i < regions.len() ==> (#[trigger] regions[i]).length > 0 && region_end(regions[i])
            <= u64::MAX
    &&& forall|i: int, j: int|
        #![trigger regions[i], regions[j]]
        0 <= i && j == i + 1 && j < regions.len() ==> !(regions[i].kind == regions[j].kind
            && region_end(regions[i]) == regions[j].start)
}

/// Every memory map Granite accepts yields sound regions, which the
/// handoff record then takes as they are: none of them is refused by
/// `write_multiboot2`'s region checks.
pub proof fn lemma_collected_sound(descriptors: Seq<MemoryDescriptor>)
    requires
        collected_regions(descriptors) is Ok,
    ensures
        regions_sound(collected_regions(descriptors)->Ok_0),
        collected_regions(descriptors)->Ok_0.len() <= MAXIMUM_MEMORY_REGIONS,
        forall|i: int|
            0 <= i < collected_regions(descriptors)->Ok_0.len() ==> !region_invalid(
                #[trigger] collected_regions(descriptors)->Ok_0[i],
            ),
    decreases descriptors.len(),
{
    if descriptors.len() > 0 {
        let rest = descriptors.drop_last();
        lemma_collected_sound(rest);
        lemma_absorb_sound(collected_regions(rest)->Ok_0, descriptors.last());
    }
}

proof fn lemma_absorb_sound(before: Seq<FirmwareMemoryRegion>, d: MemoryDescriptor)
    requires
        regions_sound(before),
        absorb_descriptor(before, d) is Ok,
    ensures
        regions_sound(absorb_descriptor(before, d)->Ok_0),
{
    if d.page_count > 0 {
        let kind = kind_of_memory_type(d.memory_type);
        let length = d.page_count * PAGE_BYTES;
        let after = absorb_descriptor(before, d)->Ok_0;
        if before.len() > 0 && before.last().kind == kind && region_end(before.last()) == d.phys_start {
            let last = before.len() - 1;
            assert(after.len() == before.len());
            assert(after[last].start == before[last].start && after[last].kind == before[last].kind);
            assert forall|i: int| 0 <= i < after.len() implies (#[trigger] after[i]).length > 0
                && region_end(after[i]) <= u64::MAX by {
                if i < last {
                    assert(after[i] == before[i]);
                }
            }
            assert forall|i: int, j: int|
                #![trigger after[i], after[j]]
                0 <= i && j == i + 1 && j < after.len() implies !(after[i].kind == after[j].kind
                    && region_end(after[i]) == after[j].start) by {
                assert(after[i] == before[i]);
                assert(before[j].start == after[j].start && before[j].kind == after[j].kind);
                assert(before[i] == before[i] && before[j] == before[j]);
            }
        } else {
            let region = FirmwareMemoryRegion { start: d.phys_start, length: length as u64, kind };
            assert(after == before.push(region));
            assert forall|i: int| 0 <= i < after.len() implies (#[trigger] after[i]).length > 0
                && region_end(after[i]) <= u64::MAX by {
                if i < before.len() {
                    assert(after[i] == before[i]);
                }
            }
            assert forall|i: int, j: int|
                #![trigger after[i], after[j]]
                0 <= i && j == i + 1 && j < after.len() implies !(after[i].kind == after[j].kind
                    && region_end(after[i]) == after[j].start) by {
                assert(after[i] == before[i]);
                if j < before.len() {
                    assert(after[j] == before[j]);
                    assert(before[i] == before[i] && before[j] == before[j]);
                }
            }
        }
    }
}

// ---------------------------------------------------------------------------
// The framebuffer.

/// How the firmware's graphics mode lays out a pixel.
#[derive(Clone, Copy, Debug, PartialEq, Eq, Structural)]
pub enum PixelLayout {
    Rgb,
    Bgr,
    Bitmask,
    BltOnly,
}

/// The framebuffer that a graphics mode describes, or `GraphicsFormat`
/// when Boulder cannot use it.
pub open spec fn framebuffer_of_mode(
    layout: PixelLayout,
    width: usize,
    height: usize,
    stride: usize,
    physical_address: u64,
    byte_length: usize,
) -> Result<Framebuffer, NativeHandoffError> {
    if layout == PixelLayout::Bitmask || layout == PixelLayout::BltOnly || 4 * stride > usize::MAX || 4
        * stride > u32::MAX || byte_length > u64::MAX || width > u32::MAX || height > u32::MAX {
        Err(NativeHandoffError::GraphicsFormat)
    } else {
        Ok(
            Framebuffer {
                physical_address,
                byte_length: byte_length as u64,
                width: width as u32,
                height: height as u32,
                pitch: (4 * stride) as u32,
                red_position: if layout == PixelLayout::Rgb { 0 } else { 16 },
                green_position: 8,
                blue_position: if layout == PixelLayout::Rgb { 16 } else { 0 },
            },
        )
    }
}

/// A usable graphics mode is described as it is: the framebuffer keeps the
/// mode's width, height, address and size, its pitch is four bytes per
/// pixel of stride, and its colour channels sit at bits 0, 8, 16 (RGB) or
/// 16, 8, 0 (BGR). A mode is refused exactly when its pixels are not RGB or
/// BGR or a field does not fit the record.
pub proof fn lemma_framebuffer_keeps_the_mode(
    layout: PixelLayout,
    width: usize,
    height: usize,
    stride: usize,
    physical_address: u64,
    byte_length: usize,
)
    ensures
        framebuffer_of_mode(layout, width, height, stride, physical_address, byte_length) is Ok <==> (
        (layout == PixelLayout::Rgb || layout == PixelLayout::Bgr) && 4 * stride <= u32::MAX
            && width <= u32::MAX && height <= u32::MAX && byte_length <= u64::MAX),
        framebuffer_of_mode(layout, width, height, stride, physical_address, byte_length) matches Ok(
            f,
        ) ==> {
            &&& f.width == width
            &&& f.height == height
            &&& f.pitch == 4 * stride
            &&& f.physical_address == physical_address
            &&& f.byte_length == byte_length
            &&& f.green_position == 8
            &&& layout == PixelLayout::Rgb ==> f.red_position == 0 && f.blue_position == 16
            &&& layout == PixelLayout::Bgr ==> f.red_position == 16 && f.blue_position == 0
        },
{
}

pub fn framebuffer_from_mode(
    layout: PixelLayout,
    width: usize,
    height: usize,
    stride: usize,
    physical_address: u64,
    byte_length: usize,
) -> (r: Result<Framebuffer, NativeHandoffError>)
    ensures
        r == framebuffer_of_mode(layout, width, height, stride, physical_address, byte_length),
        r matches Ok(f) ==> f.width == width && f.height == height && f.pitch == 4 * stride
            && f.physical_address == physical_address && f.byte_length == byte_length,
{
    let (red_position, green_position, blue_position): (u8, u8, u8) = match layout {
        PixelLayout::Rgb => (0, 8, 16),
        PixelLayout::Bgr => (16, 8, 0),
        PixelLayout::Bitmask | PixelLayout::BltOnly => return Err(NativeHandoffError::GraphicsFormat),
    };
    let pitch = match stride.checked_mul(4) {
        Some(pitch) => pitch,
        None => return Err(NativeHandoffError::GraphicsFormat),
    };
    if pitch > u32::MAX as usize {
        return Err(NativeHandoffError::GraphicsFormat);
    }
    if byte_length as u128 > u64::MAX as u128 {
        return Err(NativeHandoffError::GraphicsFormat);
    }
    if width > u32::MAX as usize || height > u32::MAX as usize {
        return Err(NativeHandoffError::GraphicsFormat);
    }
    Ok(Framebuffer {
        physical_address,
        byte_length: byte_length as u64,
        width: width as u32,
        height: height as u32,
        pitch: pitch as u32,
        red_position,
        green_position,
        blue_position,
    })
}

// ---------------------------------------------------------------------------
// The ACPI root pointer.

/// What a firmware configuration table is, as far as ACPI is concerned.
#[derive(Clone, Copy, Debug, PartialEq, Eq, Structural)]
pub enum ConfigTableKind {
    Acpi2,
    Acpi1,
    Other,
}

/// The ACPI root among the configuration tables, scanning from the front:
/// the first ACPI 2.0 table wins; otherwise the last ACPI 1.0 table seen.
pub open spec fn acpi_root_scan(entries: Seq<(ConfigTableKind, usize)>, acpi_v1: Option<usize>) -> Option<
    usize,
>
    decreases entries.len(),
{
    if entries.len() == 0 {
        acpi_v1
    } else if entries[0].0 == ConfigTableKind::Acpi2 {
        Some(entries[0].1)
    } else {
        acpi_root_scan(
            entries.drop_first(),
            if entries[0].0 == ConfigTableKind::Acpi1 {
                Some(entries[0].1)
            } else {
                acpi_v1
            },
        )
    }
}

pub fn select_acpi_root(entries: &[(ConfigTableKind, usize)]) -> (r: Option<usize>)
    ensures
        r == acpi_root_scan(entries@, None),
{
    let mut acpi_v1: Option<usize> = None;
    let mut index: usize = 0;
    assert(entries@.skip(0) =~= entries@);
    while index < entries.len()
        invariant
            index <= entries@.len(),
            acpi_root_scan(entries@, None) == acpi_root_scan(entries@.skip(index as int), acpi_v1),
        decreases entries@.len() - index,
    {
        let (kind, address) = entries[index];
        assert(entries@.skip(index as int)[0] == entries@[index as int]);
        assert(entries@.skip(index as int).drop_first() =~= entries@.skip(index + 1));
        if kind == ConfigTableKind::Acpi2 {
            return Some(address);
        }
        if kind == ConfigTableKind::Acpi1 {
            acpi_v1 = Some(address);
        }
        index = index + 1;
    }
    acpi_v1
}

/// The ACPI root lies at a nonzero address inside the early identity map.
pub fn acpi_root_address_admissible(address: usize) -> (r: bool)
    ensures
        r == (address != 0 && address < EARLY_MAPPED_PHYSICAL_LIMIT),
{
    address != 0 && (address as u64) < EARLY_MAPPED_PHYSICAL_LIMIT
}

/// The length of the root pointer record to copy: the record's own length
/// from revision 2 on, 20 bytes before; or `AcpiRoot` when it is outside
/// 20..=4096 bytes or leaves the early identity map.
pub open spec fn acpi_root_extent(address: usize, revision: u8, encoded_length: u32) -> Result<
    usize,
    NativeHandoffError,
> {
    let length: int = if revision >= 2 {
        encoded_length as int
    } else {
        20
    };
    if length > usize::MAX || length < 20 || length > 4096 || address + length > EARLY_MAPPED_PHYSICAL_LIMIT {
        Err(NativeHandoffError::AcpiRoot)
    } else {
        Ok(length as usize)
    }
}

pub fn acpi_root_length(address: usize, revision: u8, encoded_length: u32) -> (r: Result<
    usize,
    NativeHandoffError,
>)
    ensures
        r == acpi_root_extent(address, revision, encoded_length),
        r matches Ok(length) ==> 20 <= length <= 4096 && address + length <= EARLY_MAPPED_PHYSICAL_LIMIT,
{
    let length: u64 = if revision >= 2 {
        encoded_length as u64
    } else {
        20
    };
    if length > usize::MAX as u64 || length < 20 || length > 4096 {
        return Err(NativeHandoffError::AcpiRoot);
    }
    let end = match (address as u64).checked_add(length) {
        Some(end) => end,
        None => return Err(NativeHandoffError::AcpiRoot),
    };
    if end > EARLY_MAPPED_PHYSICAL_LIMIT {
        return Err(NativeHandoffError::AcpiRoot);
    }
    Ok(length as usize)
}

/// The ACPI root pointer signature, "RSD PTR ".
pub open spec fn rsdp_signature() -> Seq<u8> {
    seq![0x52u8, 0x53u8, 0x44u8, 0x20u8, 0x50u8, 0x54u8, 0x52u8, 0x20u8]
}

/// The copied record opens with the root pointer signature.
pub fn has_rsdp_signature(record: &[u8]) -> (r: bool)
    ensures
        r == (record@.len() >= 8 && record@.take(8) == rsdp_signature()),
{
    if record.len() < 8 {
        return false;
    }
    let matches = record[0] == 0x52 && record[1] == 0x53 && record[2] == 0x44 && record[3] == 0x20
        && record[4] == 0x50 && record[5] == 0x54 && record[6] == 0x52 && record[7] == 0x20;
    if matches {
        assert(record@.take(8) =~= rsdp_signature());
    } else {
        assert(record@.take(8) != rsdp_signature()) by {
            if record@.take(8) == rsdp_signature() {
                assert(record@.take(8)[0] == record@[0]);
                assert(record@.take(8)[1] == record@[1]);
                assert(record@.take(8)[2] == record@[2]);
                assert(record@.take(8)[3] == record@[3]);
                assert(record@.take(8)[4] == record@[4]);
                assert(record@.take(8)[5] == record@[5]);
                assert(record@.take(8)[6] == record@[6]);
                assert(record@.take(8)[7] == record@[7]);
            }
        }
    }
    matches
}

} // verus!
