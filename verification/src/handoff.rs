//! Bounded construction of the Multiboot2-shaped handoff consumed by Boulder.
//!
//! Granite owns firmware discovery, while Boulder already parses Multiboot2
//! information. This module writes only the subset of that record Boulder
//! consumes, into loader-owned memory, after every source datum has been
//! bounds checked. It allocates nothing: it runs after firmware boot services
//! have ended.

use vstd::prelude::*;
use crate::bytes::{le_bytes, le_value, pow256, zeros, lemma_le_value_of_bytes};
use crate::elf::{
    ExecutableLayout,
    LayoutView,
    LoadSegmentView,
    executable_physical_hit,
    physical_end_of,
};

verus! {

broadcast use crate::bytes::lemma_le_bytes_len;

pub const PAGE_BYTES: u64 = 4096;

pub const EARLY_MAPPED_PHYSICAL_LIMIT: u64 = 1024 * 1024 * 1024;

pub const GRANITE_BOOTSTRAP_ENTRY_PHYSICAL: u64 = 0x0010_1000;

pub const MAXIMUM_MEMORY_REGIONS: usize = 128;

pub const MULTIBOOT_HEADER_BYTES: usize = 8;

pub const TAG_END: u32 = 0;

pub const TAG_MODULE: u32 = 3;

pub const TAG_MEMORY_MAP: u32 = 6;

pub const TAG_FRAMEBUFFER: u32 = 8;

pub const TAG_ACPI_NEW: u32 = 15;

pub const MEMORY_MAP_HEADER_BYTES: usize = 16;

pub const MEMORY_MAP_ENTRY_BYTES: usize = 24;

pub const MODULE_HEADER_BYTES: usize = 16;

pub const FRAMEBUFFER_TAG_BYTES: usize = 38;

// ---------------------------------------------------------------------------
// Inputs.

#[derive(Clone, Copy, Debug, PartialEq, Eq, Structural)]
pub enum MemoryKind {
    Usable,
    Reserved,
    AcpiReclaimable,
    AcpiNonVolatile,
    Defective,
}

/// The Multiboot2 memory-map type of each kind.
pub open spec fn memory_kind_code(kind: MemoryKind) -> u32 {
    match kind {
        MemoryKind::Usable => 1,
        MemoryKind::AcpiReclaimable => 3,
        MemoryKind::AcpiNonVolatile => 4,
        MemoryKind::Defective => 5,
        MemoryKind::Reserved => 2,
    }
}

impl MemoryKind {
    fn multiboot_type(self) -> (r: u32)
        ensures
            r == memory_kind_code(self),
    {
        match self {
            MemoryKind::Usable => 1,
            MemoryKind::AcpiReclaimable => 3,
            MemoryKind::AcpiNonVolatile => 4,
            MemoryKind::Defective => 5,
            MemoryKind::Reserved => 2,
        }
    }
}

#[derive(Clone, Copy, Debug, PartialEq, Eq, Structural)]
pub struct FirmwareMemoryRegion {
    pub start: u64,
    pub length: u64,
    pub kind: MemoryKind,
}

/// `Some(x + y)` when the sum fits in a `u64`, `None` otherwise.
pub open spec fn sum_if_fits(x: u64, y: u64) -> Option<u64> {
    if x + y <= u64::MAX {
        Some((x + y) as u64)
    } else {
        None
    }
}

impl FirmwareMemoryRegion {
    /// A reserved region of no bytes at address zero.
    pub fn empty() -> (r: Self)
        ensures
            r == (FirmwareMemoryRegion { start: 0, length: 0, kind: MemoryKind::Reserved }),
    {
        FirmwareMemoryRegion { start: 0, length: 0, kind: MemoryKind::Reserved }
    }

    pub fn end(self) -> (r: Option<u64>)
        ensures
            r == sum_if_fits(self.start, self.length),
    {
        self.start.checked_add(self.length)
    }
}

#[derive(Clone, Copy, Debug, PartialEq, Eq)]
pub struct BootModule<'a> {
    pub start: u64,
    pub bytes: u64,
    pub name: &'a [u8],
}

/// What a boot module holds, as plain values.
pub struct ModuleView {
    pub start: u64,
    pub bytes: u64,
    pub name: Seq<u8>,
}

impl<'a> View for BootModule<'a> {
    type V = ModuleView;

    open spec fn view(&self) -> ModuleView {
        ModuleView { start: self.start, bytes: self.bytes, name: self.name@ }
    }
}

impl<'a> BootModule<'a> {
    pub fn end(self) -> (r: Option<u64>)
        ensures
            r == sum_if_fits(self.start, self.bytes),
    {
        self.start.checked_add(self.bytes)
    }
}

#[derive(Clone, Copy, Debug, PartialEq, Eq, Structural)]
pub struct Framebuffer {
    pub physical_address: u64,
    pub byte_length: u64,
    pub width: u32,
    pub height: u32,
    pub pitch: u32,
    pub red_position: u8,
    pub green_position: u8,
    pub blue_position: u8,
}

#[derive(Clone, Copy, Debug, PartialEq, Eq, Structural)]
pub enum HandoffError {
    BoulderBootstrapOutsideExecutableSegment,
    BoulderSegmentOutsideEarlyMap,
    TooManyMemoryRegions,
    InvalidMemoryRegion,
    InvalidModule,
    InvalidFramebuffer,
    InvalidAcpiRoot,
    BufferTooSmall,
    SizeOverflow,
}

// ---------------------------------------------------------------------------
// Boulder's layout.

/// A segment some byte of which lies outside the identity map that
/// Granite's bootstrap entry builds.
pub open spec fn outside_early_map(s: LoadSegmentView) -> bool {
    s.physical_address >= EARLY_MAPPED_PHYSICAL_LIMIT || physical_end_of(s) > u64::MAX
        || physical_end_of(s) > EARLY_MAPPED_PHYSICAL_LIMIT
}

/// What `validate_boulder_layout` decides for a layout.
pub open spec fn boulder_layout_check(l: LayoutView) -> Result<(), HandoffError> {
    if !executable_physical_hit(l, GRANITE_BOOTSTRAP_ENTRY_PHYSICAL) {
        Err(HandoffError::BoulderBootstrapOutsideExecutableSegment)
    } else if exists|i: int| 0 <= i < l.segments.len() && outside_early_map(#[trigger] l.segments[i]) {
        Err(HandoffError::BoulderSegmentOutsideEarlyMap)
    } else {
        Ok(())
    }
}

/// Ensures the image being placed contains Granite's fixed 64-bit entry and
/// that every loaded Boulder byte stays inside the page tables that entry
/// builds.
pub fn validate_boulder_layout(layout: &ExecutableLayout) -> (r: Result<(), HandoffError>)
    ensures
        r == boulder_layout_check(layout@),
{
    if !layout.contains_executable_physical_address(GRANITE_BOOTSTRAP_ENTRY_PHYSICAL) {
        return Err(HandoffError::BoulderBootstrapOutsideExecutableSegment);
    }
    let segments = layout.segments();
    let ghost views = layout@.segments;
    let mut index: usize = 0;
    while index < segments.len()
        invariant
            index <= segments@.len(),
            views == layout@.segments,
            segments@.len() == views.len(),
            segments@.map_values(|s: crate::elf::LoadSegment| s@) == views,
            executable_physical_hit(layout@, GRANITE_BOOTSTRAP_ENTRY_PHYSICAL),
            forall|j: int| 0 <= j < index ==> !outside_early_map(#[trigger] views[j]),
        decreases segments@.len() - index,
    {
        let segment = segments[index];
        assert(views[index as int] == segment@);
        let outside = segment.physical_address() >= EARLY_MAPPED_PHYSICAL_LIMIT || match segment.physical_end() {
            Some(end) => end > EARLY_MAPPED_PHYSICAL_LIMIT,
            None => true,
        };
        if outside {
            assert(outside_early_map(layout@.segments[index as int]));
            return Err(HandoffError::BoulderSegmentOutsideEarlyMap);
        }
        index = index + 1;
    }
    Ok(())
}

// ---------------------------------------------------------------------------
// The record.

/// The zero bytes that round a length of `n` up to a multiple of eight.
pub open spec fn padding(n: nat) -> nat {
    ((8 - n % 8) % 8) as nat
}

/// `s` followed by the zero bytes that round its length up to a multiple of eight.
pub open spec fn padded(s: Seq<u8>) -> Seq<u8> {
    s + zeros(padding(s.len()))
}

/// One memory-map entry: base, length, type, reserved.
pub open spec fn region_entry(r: FirmwareMemoryRegion) -> Seq<u8> {
    le_bytes(r.start as nat, 8) + le_bytes(r.length as nat, 8) + le_bytes(
        memory_kind_code(r.kind) as nat,
        4,
    ) + le_bytes(0, 4)
}

/// The memory-map entries of `regions`, in order.
pub open spec fn region_entries(regions: Seq<FirmwareMemoryRegion>) -> Seq<u8>
    decreases regions.len(),
{
    if regions.len() == 0 {
        Seq::empty()
    } else {
        region_entries(regions.drop_last()) + region_entry(regions.last())
    }
}

/// The size field of a memory-map tag with `n` entries.
pub open spec fn memory_map_size(n: nat) -> nat {
    (MEMORY_MAP_HEADER_BYTES + MEMORY_MAP_ENTRY_BYTES * n) as nat
}

/// Tag 6: the memory map.
pub open spec fn memory_map_tag(regions: Seq<FirmwareMemoryRegion>) -> Seq<u8> {
    padded(
        le_bytes(TAG_MEMORY_MAP as nat, 4) + le_bytes(memory_map_size(regions.len()), 4) + le_bytes(
            MEMORY_MAP_ENTRY_BYTES as nat,
            4,
        ) + le_bytes(0, 4) + region_entries(regions),
    )
}

/// The size field of a module tag.
pub open spec fn module_size(m: ModuleView) -> nat {
    (MODULE_HEADER_BYTES + m.name.len() + 1) as nat
}

/// Tag 3: one module, its start and end (32-bit) and its NUL-terminated name.
pub open spec fn module_tag(m: ModuleView) -> Seq<u8> {
    padded(
        le_bytes(TAG_MODULE as nat, 4) + le_bytes(module_size(m), 4) + le_bytes(m.start as nat, 4)
            + le_bytes((m.start + m.bytes) as nat, 4) + m.name + seq![0u8],
    )
}

/// The module tags of `modules`, in order.
pub open spec fn module_tags(modules: Seq<ModuleView>) -> Seq<u8>
    decreases modules.len(),
{
    if modules.len() == 0 {
        Seq::empty()
    } else {
        module_tags(modules.drop_last()) + module_tag(modules.last())
    }
}

/// Tag 8: a direct-colour framebuffer of 32 bits per pixel with 8-bit channels.
pub open spec fn framebuffer_tag(f: Framebuffer) -> Seq<u8> {
    padded(
        le_bytes(TAG_FRAMEBUFFER as nat, 4) + le_bytes(FRAMEBUFFER_TAG_BYTES as nat, 4) + le_bytes(
            f.physical_address as nat,
            8,
        ) + le_bytes(f.pitch as nat, 4) + le_bytes(f.width as nat, 4) + le_bytes(f.height as nat, 4)
            + seq![32u8, 1u8, 0u8, 0u8, f.red_position, 8u8, f.green_position, 8u8, f.blue_position, 8u8],
    )
}

/// Tag 15: a copy of the ACPI root pointer.
pub open spec fn acpi_tag(acpi_root: Seq<u8>) -> Seq<u8> {
    padded(le_bytes(TAG_ACPI_NEW as nat, 4) + le_bytes(8 + acpi_root.len(), 4) + acpi_root)
}

/// The terminating tag.
pub open spec fn end_tag() -> Seq<u8> {
    le_bytes(TAG_END as nat, 4) + le_bytes(8, 4)
}

pub open spec fn framebuffer_part(framebuffer: Option<Framebuffer>) -> Seq<u8> {
    match framebuffer {
        Some(f) => framebuffer_tag(f),
        None => Seq::empty(),
    }
}

/// The tags of the record, in the order Granite writes them.
pub open spec fn multiboot2_body(
    regions: Seq<FirmwareMemoryRegion>,
    modules: Seq<ModuleView>,
    framebuffer: Option<Framebuffer>,
    acpi_root: Seq<u8>,
) -> Seq<u8> {
    memory_map_tag(regions) + module_tags(modules) + framebuffer_part(framebuffer) + acpi_tag(
        acpi_root,
    ) + end_tag()
}

/// The complete record: its total size, a reserved zero word, and its tags.
pub open spec fn multiboot2_record(
    regions: Seq<FirmwareMemoryRegion>,
    modules: Seq<ModuleView>,
    framebuffer: Option<Framebuffer>,
    acpi_root: Seq<u8>,
) -> Seq<u8> {
    let body = multiboot2_body(regions, modules, framebuffer, acpi_root);
    le_bytes((MULTIBOOT_HEADER_BYTES + body.len()) as nat, 4) + zeros(4) + body
}

// ---------------------------------------------------------------------------
// Admission of the inputs.

pub open spec fn region_invalid(r: FirmwareMemoryRegion) -> bool {
    r.length == 0 || r.start + r.length > u64::MAX
}

/// A module Multiboot2 cannot describe: empty, ending beyond 4 GiB, or with
/// an empty name or one holding NUL.
pub open spec fn module_invalid(m: ModuleView) -> bool {
    m.start + m.bytes > u64::MAX || m.bytes == 0 || m.start + m.bytes > u32::MAX || m.name.len()
        == 0 || m.name.contains(0u8)
}

/// `4 * width`, saturated at `u32::MAX`.
pub open spec fn minimum_pitch(width: u32) -> nat {
    if 4 * width > u32::MAX {
        u32::MAX as nat
    } else {
        (4 * width) as nat
    }
}

pub open spec fn framebuffer_invalid(f: Framebuffer) -> bool {
    f.pitch * f.height > u64::MAX || f.physical_address == 0 || f.width == 0 || f.height == 0
        || f.pitch < minimum_pitch(f.width) || f.pitch * f.height > f.byte_length
        || f.physical_address + f.pitch * f.height > u64::MAX
}

/// The first input that Granite refuses to describe, in its order of checks.
pub open spec fn handoff_input_error(
    regions: Seq<FirmwareMemoryRegion>,
    modules: Seq<ModuleView>,
    framebuffer: Option<Framebuffer>,
    acpi_root: Seq<u8>,
) -> Option<HandoffError> {
    if regions.len() > MAXIMUM_MEMORY_REGIONS {
        Some(HandoffError::TooManyMemoryRegions)
    } else if acpi_root.len() < 20 || acpi_root.len() > 4096 {
        Some(HandoffError::InvalidAcpiRoot)
    } else if exists|i: int| 0 <= i < regions.len() && region_invalid(#[trigger] regions[i]) {
        Some(HandoffError::InvalidMemoryRegion)
    } else if exists|i: int| 0 <= i < modules.len() && module_invalid(#[trigger] modules[i]) {
        Some(HandoffError::InvalidModule)
    } else if framebuffer matches Some(f) && framebuffer_invalid(f) {
        Some(HandoffError::InvalidFramebuffer)
    } else {
        None
    }
}

// ---------------------------------------------------------------------------
// Writing, and where it stops.

/// Writing a tag whose size field is `size` and whose bytes number
/// `tag_len`, at `cursor` in a buffer of `capacity` bytes: the next cursor,
/// or why the tag cannot be written.
pub open spec fn tag_outcome(size: nat, tag_len: nat, cursor: nat, capacity: nat) -> Result<
    nat,
    HandoffError,
> {
    if size > u32::MAX {
        Err(HandoffError::SizeOverflow)
    } else if cursor + tag_len > capacity {
        Err(HandoffError::BufferTooSmall)
    } else {
        Ok(cursor + tag_len)
    }
}

/// Writing the module tags in order from `cursor`.
pub open spec fn modules_outcome(modules: Seq<ModuleView>, cursor: nat, capacity: nat) -> Result<
    nat,
    HandoffError,
>
    decreases modules.len(),
{
    if modules.len() == 0 {
        Ok(cursor)
    } else {
        match modules_outcome(modules.drop_last(), cursor, capacity) {
            Err(e) => Err(e),
            Ok(c) => tag_outcome(module_size(modules.last()), module_tag(modules.last()).len(), c, capacity),
        }
    }
}

pub open spec fn framebuffer_outcome(framebuffer: Option<Framebuffer>, cursor: nat, capacity: nat) -> Result<
    nat,
    HandoffError,
> {
    match framebuffer {
        Some(f) => tag_outcome(FRAMEBUFFER_TAG_BYTES as nat, framebuffer_tag(f).len(), cursor, capacity),
        None => Ok(cursor),
    }
}

/// Writing the reserved header, the memory map and the module tags.
pub open spec fn leading_outcome(
    regions: Seq<FirmwareMemoryRegion>,
    modules: Seq<ModuleView>,
    capacity: nat,
) -> Result<nat, HandoffError> {
    if capacity < MULTIBOOT_HEADER_BYTES {
        Err(HandoffError::BufferTooSmall)
    } else {
        match tag_outcome(
            memory_map_size(regions.len()),
            memory_map_tag(regions).len(),
            MULTIBOOT_HEADER_BYTES as nat,
            capacity,
        ) {
            Err(e) => Err(e),
            Ok(c) => modules_outcome(modules, c, capacity),
        }
    }
}

/// Writing the framebuffer, ACPI and end tags from `cursor`.
pub open spec fn trailing_outcome(
    framebuffer: Option<Framebuffer>,
    acpi_root: Seq<u8>,
    cursor: nat,
    capacity: nat,
) -> Result<nat, HandoffError> {
    match framebuffer_outcome(framebuffer, cursor, capacity) {
        Err(e) => Err(e),
        Ok(c) => match tag_outcome(8 + acpi_root.len(), acpi_tag(acpi_root).len(), c, capacity) {
            Err(e) => Err(e),
            Ok(c) => tag_outcome(8, end_tag().len(), c, capacity),
        },
    }
}

/// Writing the whole record into a buffer of `capacity` bytes: its length,
/// or the first obstacle met.
pub open spec fn record_outcome(
    regions: Seq<FirmwareMemoryRegion>,
    modules: Seq<ModuleView>,
    framebuffer: Option<Framebuffer>,
    acpi_root: Seq<u8>,
    capacity: nat,
) -> Result<nat, HandoffError> {
    match leading_outcome(regions, modules, capacity) {
        Err(e) => Err(e),
        Ok(c) => match trailing_outcome(framebuffer, acpi_root, c, capacity) {
            Err(e) => Err(e),
            Ok(total) => if total > u32::MAX {
                Err(HandoffError::SizeOverflow)
            } else {
                Ok(total)
            },
        },
    }
}

/// `new` is `old` with `data` written at `at`.
pub open spec fn spliced(new: Seq<u8>, old: Seq<u8>, at: int, data: Seq<u8>) -> bool {
    &&& 0 <= at
    &&& at + data.len() <= old.len()
    &&& new == old.take(at) + data + old.skip(at + data.len())
}

/// `new` is `old` with some prefix of `data` written at `at`.
pub open spec fn partially_spliced(new: Seq<u8>, old: Seq<u8>, at: int, data: Seq<u8>) -> bool {
    exists|k: int| 0 <= k <= data.len() && #[trigger] spliced(new, old, at, data.take(k))
}

/// How one tag writer left the buffer: the whole tag written and the cursor
/// after it, or the tag's outcome error and a prefix of the tag written.
pub open spec fn tag_written(
    r: Result<usize, HandoffError>,
    origin: Seq<u8>,
    new: Seq<u8>,
    cursor: int,
    size: nat,
    tag: Seq<u8>,
) -> bool {
    &&& new.len() == origin.len()
    &&& match r {
        Ok(c) => tag_outcome(size, tag.len(), cursor as nat, origin.len()) == Ok::<nat, HandoffError>(
            c as nat,
        ) && spliced(new, origin, cursor, tag),
        Err(e) => tag_outcome(size, tag.len(), cursor as nat, origin.len()) == Err::<nat, HandoffError>(
            e,
        ) && partially_spliced(new, origin, cursor, tag),
    }
}

proof fn lemma_spliced_nothing(s: Seq<u8>, at: int, data: Seq<u8>)
    requires
        0 <= at <= s.len(),
    ensures
        spliced(s, s, at, data.take(0)),
{
    assert(s =~= s.take(at) + data.take(0) + s.skip(at));
}

proof fn lemma_partial(new: Seq<u8>, old: Seq<u8>, at: int, data: Seq<u8>, k: int)
    requires
        0 <= k <= data.len(),
        spliced(new, old, at, data.take(k)),
    ensures
        partially_spliced(new, old, at, data),
{
}

proof fn lemma_splice_chain(t0: Seq<u8>, t1: Seq<u8>, t2: Seq<u8>, at: int, x: Seq<u8>, y: Seq<u8>)
    requires
        spliced(t1, t0, at, x),
        spliced(t2, t1, at + x.len(), y),
    ensures
        spliced(t2, t0, at, x + y),
{
    assert(t2 =~= t0.take(at) + (x + y) + t0.skip(at + x.len() + y.len()));
}

proof fn lemma_splice_chain_partial(
    t0: Seq<u8>,
    t1: Seq<u8>,
    t2: Seq<u8>,
    at: int,
    x: Seq<u8>,
    y: Seq<u8>,
)
    requires
        spliced(t1, t0, at, x),
        partially_spliced(t2, t1, at + x.len(), y),
    ensures
        partially_spliced(t2, t0, at, x + y),
{
    let k = choose|k: int| 0 <= k <= y.len() && #[trigger] spliced(t2, t1, at + x.len(), y.take(k));
    lemma_splice_chain(t0, t1, t2, at, x, y.take(k));
    assert((x + y).take(x.len() + k) =~= x + y.take(k));
}

proof fn lemma_partial_extend(t: Seq<u8>, o: Seq<u8>, at: int, x: Seq<u8>, y: Seq<u8>)
    requires
        partially_spliced(t, o, at, x),
    ensures
        partially_spliced(t, o, at, x + y),
{
    let k = choose|k: int| 0 <= k <= x.len() && #[trigger] spliced(t, o, at, x.take(k));
    assert((x + y).take(k) =~= x.take(k));
}

/// Writes the `n`-byte little-endian encoding of `value` at `cursor`, the
/// next piece of the `tag` being written from `start`.
fn emit_le(
    target: &mut [u8],
    cursor: usize,
    value: u64,
    n: usize,
    Ghost(origin): Ghost<Seq<u8>>,
    Ghost(start): Ghost<int>,
    Ghost(tag): Ghost<Seq<u8>>,
) -> (r: Result<usize, HandoffError>)
    requires
        n <= 8,
        start <= cursor,
        cursor - start + n <= tag.len(),
        old(target)@.len() == origin.len(),
        spliced(old(target)@, origin, start, tag.take(cursor - start)),
        tag.subrange(cursor - start, cursor - start + n) == le_bytes(value as nat, n as nat),
    ensures
        final(target)@.len() == origin.len(),
        match r {
            Ok(c) => c == cursor + n && spliced(final(target)@, origin, start, tag.take(c - start)),
            Err(e) => e == HandoffError::BufferTooSmall && cursor + n > origin.len() && final(target)@ == old(target)@,
        },
{
    if n > target.len() - cursor {
        return Err(HandoffError::BufferTooSmall);
    }
    let ghost encoding = le_bytes(value as nat, n as nat);
    let mut v = value;
    let len = target.len();
    let mut i: usize = 0;
    assert(encoding.skip(0) =~= encoding);
    while i < n
        invariant
            len == origin.len(),
            i <= n <= 8,
            start <= cursor,
            cursor + n <= origin.len(),
            cursor - start + n <= tag.len(),
            target@.len() == origin.len(),
            tag.subrange(cursor - start, cursor - start + n) == encoding,
            encoding == le_bytes(value as nat, n as nat),
            encoding.skip(i as int) == le_bytes(v as nat, (n - i) as nat),
            spliced(target@, origin, start, tag.take(cursor - start + i)),
        decreases n - i,
    {
        let ghost before = target@;
        assert(encoding.skip(i as int)[0] == encoding[i as int]);
        assert(tag[cursor - start + i] == encoding[i as int]);
        target[cursor + i] = (v % 256) as u8;
        assert(encoding.skip(i + 1) =~= encoding.skip(i as int).drop_first());
        v = v / 256;
        i = i + 1;
        assert(target@ =~= origin.take(start) + tag.take(cursor - start + i) + origin.skip(
            cursor + i,
        ));
    }
    Ok(cursor + n)
}

/// Writes one byte at `cursor`, the next piece of the `tag` being written
/// from `start`.
fn emit_u8(
    target: &mut [u8],
    cursor: usize,
    value: u8,
    Ghost(origin): Ghost<Seq<u8>>,
    Ghost(start): Ghost<int>,
    Ghost(tag): Ghost<Seq<u8>>,
) -> (r: Result<usize, HandoffError>)
    requires
        start <= cursor,
        cursor - start + 1 <= tag.len(),
        old(target)@.len() == origin.len(),
        spliced(old(target)@, origin, start, tag.take(cursor - start)),
        tag[cursor - start] == value,
    ensures
        final(target)@.len() == origin.len(),
        match r {
            Ok(c) => c == cursor + 1 && spliced(final(target)@, origin, start, tag.take(c - start)),
            Err(e) => e == HandoffError::BufferTooSmall && cursor + 1 > origin.len() && final(target)@ == old(target)@,
        },
{
    if target.len() - cursor < 1 {
        return Err(HandoffError::BufferTooSmall);
    }
    target[cursor] = value;
    assert(target@ =~= origin.take(start) + tag.take(cursor - start + 1) + origin.skip(cursor + 1));
    Ok(cursor + 1)
}

/// Copies `source` to `cursor`, the next piece of the `tag` being written
/// from `start`.
fn emit_bytes(
    target: &mut [u8],
    cursor: usize,
    source: &[u8],
    Ghost(origin): Ghost<Seq<u8>>,
    Ghost(start): Ghost<int>,
    Ghost(tag): Ghost<Seq<u8>>,
) -> (r: Result<usize, HandoffError>)
    requires
        start <= cursor,
        cursor - start + source@.len() <= tag.len(),
        old(target)@.len() == origin.len(),
        spliced(old(target)@, origin, start, tag.take(cursor - start)),
        tag.subrange(cursor - start, cursor - start + source@.len()) == source@,
    ensures
        final(target)@.len() == origin.len(),
        match r {
            Ok(c) => c == cursor + source@.len() && spliced(
                final(target)@,
                origin,
                start,
                tag.take(c - start),
            ),
            Err(e) => e == HandoffError::BufferTooSmall && cursor + source@.len() > origin.len()
                && final(target)@ == old(target)@,
        },
{
    let n = source.len();
    if n > target.len() - cursor {
        return Err(HandoffError::BufferTooSmall);
    }
    let len = target.len();
    let mut i: usize = 0;
    while i < n
        invariant
            len == origin.len(),
            i <= n,
            n == source@.len(),
            start <= cursor,
            cursor + n <= origin.len(),
            cursor - start + n <= tag.len(),
            target@.len() == origin.len(),
            tag.subrange(cursor - start, cursor - start + n) == source@,
            spliced(target@, origin, start, tag.take(cursor - start + i)),
        decreases n - i,
    {
        assert(tag[cursor - start + i] == source@[i as int]);
        target[cursor + i] = source[i];
        i = i + 1;
        assert(target@ =~= origin.take(start) + tag.take(cursor - start + i) + origin.skip(
            cursor + i,
        ));
    }
    Ok(cursor + n)
}

/// Writes `n` zero bytes at `cursor`, the next piece of the `tag` being
/// written from `start`.
fn emit_zeros(
    target: &mut [u8],
    cursor: usize,
    n: usize,
    Ghost(origin): Ghost<Seq<u8>>,
    Ghost(start): Ghost<int>,
    Ghost(tag): Ghost<Seq<u8>>,
) -> (r: Result<usize, HandoffError>)
    requires
        start <= cursor,
        cursor - start + n <= tag.len(),
        old(target)@.len() == origin.len(),
        spliced(old(target)@, origin, start, tag.take(cursor - start)),
        tag.subrange(cursor - start, cursor - start + n) == zeros(n as nat),
    ensures
        final(target)@.len() == origin.len(),
        match r {
            Ok(c) => c == cursor + n && spliced(final(target)@, origin, start, tag.take(c - start)),
            Err(e) => e == HandoffError::BufferTooSmall && cursor + n > origin.len() && final(target)@ == old(target)@,
        },
{
    if n > target.len() - cursor {
        return Err(HandoffError::BufferTooSmall);
    }
    let len = target.len();
    let mut i: usize = 0;
    while i < n
        invariant
            len == origin.len(),
            i <= n,
            start <= cursor,
            cursor + n <= origin.len(),
            cursor - start + n <= tag.len(),
            target@.len() == origin.len(),
            tag.subrange(cursor - start, cursor - start + n) == zeros(n as nat),
            spliced(target@, origin, start, tag.take(cursor - start + i)),
        decreases n - i,
    {
        assert(tag[cursor - start + i] == zeros(n as nat)[i as int]);
        target[cursor + i] = 0;
        i = i + 1;
        assert(target@ =~= origin.take(start) + tag.take(cursor - start + i) + origin.skip(
            cursor + i,
        ));
    }
    Ok(cursor + n)
}

/// Writes the zero bytes that end the tag `padded(content)` at a multiple
/// of eight; `content` has been written from the 8-aligned `start`.
fn emit_padding(
    target: &mut [u8],
    cursor: usize,
    Ghost(origin): Ghost<Seq<u8>>,
    Ghost(start): Ghost<int>,
    Ghost(content): Ghost<Seq<u8>>,
) -> (r: Result<usize, HandoffError>)
    requires
        start % 8 == 0,
        0 <= start <= cursor,
        cursor - start == content.len(),
        old(target)@.len() == origin.len(),
        spliced(old(target)@, origin, start, padded(content).take(content.len() as int)),
    ensures
        final(target)@.len() == origin.len(),
        match r {
            Ok(c) => c == start + padded(content).len() && spliced(
                final(target)@,
                origin,
                start,
                padded(content),
            ),
            Err(e) => e == HandoffError::BufferTooSmall && start + padded(content).len()
                > origin.len() && final(target)@ == old(target)@,
        },
{
    let remainder = cursor % 8;
    let pad: usize = if remainder == 0 {
        0
    } else {
        8 - remainder
    };
    let ghost tag = padded(content);
    assert(pad == padding(content.len()));
    assert(tag.subrange(content.len() as int, content.len() + pad) =~= zeros(pad as nat));
    let r = emit_zeros(target, cursor, pad, Ghost(origin), Ghost(start), Ghost(tag));
    assert(tag.take(tag.len() as int) =~= tag);
    r
}

/// Writes a tag's type and size words at `cursor`, where the `tag` begins.
fn write_tag_header(
    target: &mut [u8],
    cursor: usize,
    kind: u32,
    size: usize,
    Ghost(origin): Ghost<Seq<u8>>,
    Ghost(tag): Ghost<Seq<u8>>,
) -> (r: Result<usize, HandoffError>)
    requires
        8 <= tag.len(),
        cursor <= origin.len(),
        old(target)@ == origin,
        tag.subrange(0, 4) == le_bytes(kind as nat, 4),
        size <= u32::MAX ==> tag.subrange(4, 8) == le_bytes(size as nat, 4),
    ensures
        final(target)@.len() == origin.len(),
        match r {
            Ok(c) => size <= u32::MAX && c == cursor + 8 && spliced(
                final(target)@,
                origin,
                cursor as int,
                tag.take(8),
            ),
            Err(e) => final(target)@ == origin && if size > u32::MAX {
                e == HandoffError::SizeOverflow
            } else {
                e == HandoffError::BufferTooSmall && cursor + 8 > origin.len()
            },
        },
{
    if size > u32::MAX as usize {
        return Err(HandoffError::SizeOverflow);
    }
    if target.len() - cursor < 8 {
        return Err(HandoffError::BufferTooSmall);
    }
    proof {
        lemma_spliced_nothing(origin, cursor as int, tag);
    }
    let c = match emit_le(target, cursor, kind as u64, 4, Ghost(origin), Ghost(cursor as int), Ghost(tag)) {
        Ok(c) => c,
        Err(e) => return Err(e),
    };
    emit_le(target, c, size as u64, 4, Ghost(origin), Ghost(cursor as int), Ghost(tag))
}

/// Writes tag 15, a copy of the ACPI root pointer.
fn write_acpi_tag(target: &mut [u8], cursor: usize, acpi_root: &[u8]) -> (r: Result<
    usize,
    HandoffError,
>)
    requires
        cursor % 8 == 0,
        cursor <= old(target)@.len(),
        acpi_root@.len() <= 4096,
    ensures
        tag_written(
            r,
            old(target)@,
            final(target)@,
            cursor as int,
            (8 + acpi_root@.len()) as nat,
            acpi_tag(acpi_root@),
        ),
{
    let ghost origin = target@;
    let ghost content = le_bytes(TAG_ACPI_NEW as nat, 4) + le_bytes((8 + acpi_root@.len()) as nat, 4)
        + acpi_root@;
    let ghost tag = acpi_tag(acpi_root@);
    let ghost at = cursor as int;
    assert(tag.subrange(0, 4) =~= le_bytes(TAG_ACPI_NEW as nat, 4));
    assert(tag.subrange(4, 8) =~= le_bytes((8 + acpi_root@.len()) as nat, 4));
    assert(tag.subrange(8, 8 + acpi_root@.len() as int) =~= acpi_root@);
    assert(tag.take(content.len() as int) =~= content);
    proof {
        lemma_spliced_nothing(origin, at, tag);
    }
    let size = 8 + acpi_root.len();
    let c = match write_tag_header(target, cursor, TAG_ACPI_NEW, size, Ghost(origin), Ghost(tag)) {
        Ok(c) => c,
        Err(e) => {
            proof {
                lemma_partial(target@, origin, at, tag, 0);
            }
            return Err(e);
        },
    };
    let c = match emit_bytes(target, c, acpi_root, Ghost(origin), Ghost(at), Ghost(tag)) {
        Ok(c) => c,
        Err(e) => {
            proof {
                lemma_partial(target@, origin, at, tag, 8);
            }
            return Err(e);
        },
    };
    match emit_padding(target, c, Ghost(origin), Ghost(at), Ghost(content)) {
        Ok(c) => Ok(c),
        Err(e) => {
            proof {
                lemma_partial(target@, origin, at, tag, content.len() as int);
            }
            Err(e)
        },
    }
}

/// Writes the terminating tag.
fn write_end_tag(target: &mut [u8], cursor: usize) -> (r: Result<usize, HandoffError>)
    requires
        cursor <= old(target)@.len(),
    ensures
        tag_written(r, old(target)@, final(target)@, cursor as int, 8, end_tag()),
{
    let ghost origin = target@;
    let ghost tag = end_tag();
    assert(tag.subrange(0, 4) =~= le_bytes(TAG_END as nat, 4));
    assert(tag.subrange(4, 8) =~= le_bytes(8, 4));
    assert(tag.take(8) =~= tag);
    proof {
        lemma_spliced_nothing(origin, cursor as int, tag);
    }
    let r = write_tag_header(target, cursor, TAG_END, 8, Ghost(origin), Ghost(tag));
    proof {
        if r is Err {
            lemma_partial(target@, origin, cursor as int, tag, 0);
        }
    }
    r
}

proof fn lemma_region_entries(regions: Seq<FirmwareMemoryRegion>, i: int)
    requires
        0 <= i < regions.len(),
    ensures
        region_entries(regions).len() == MEMORY_MAP_ENTRY_BYTES * regions.len(),
        region_entries(regions).subrange(24 * i, 24 * i + 24) == region_entry(regions[i]),
    decreases regions.len(),
{
    let rest = regions.drop_last();
    if i < regions.len() - 1 {
        lemma_region_entries(rest, i);
        assert(region_entries(regions).subrange(24 * i, 24 * i + 24) =~= region_entries(rest).subrange(
            24 * i,
            24 * i + 24,
        ));
    } else {
        if rest.len() > 0 {
            lemma_region_entries(rest, 0);
        }
        assert(region_entries(regions).subrange(24 * i, 24 * i + 24) =~= region_entry(regions[i]));
    }
}

/// Where the four fields of entry `i` lie in the memory-map tag.
proof fn lemma_memory_map_fields(regions: Seq<FirmwareMemoryRegion>, i: int)
    requires
        0 <= i < regions.len(),
    ensures
        ({
            let tag = memory_map_tag(regions);
            let r = regions[i];
            let base = 16 + 24 * i;
            &&& region_entries(regions).len() == MEMORY_MAP_ENTRY_BYTES * regions.len()
            &&& tag.subrange(base, base + 8) == le_bytes(r.start as nat, 8)
            &&& tag.subrange(base + 8, base + 16) == le_bytes(r.length as nat, 8)
            &&& tag.subrange(base + 16, base + 20) == le_bytes(memory_kind_code(r.kind) as nat, 4)
            &&& tag.subrange(base + 20, base + 24) == le_bytes(0, 4)
        }),
{
    lemma_region_entries(regions, i);
    let tag = memory_map_tag(regions);
    let entries = region_entries(regions);
    let base = 16 + 24 * i;
    let entry = region_entry(regions[i]);
    assert(tag.subrange(base, base + 24) =~= entries.subrange(24 * i, 24 * i + 24));
    assert(tag.subrange(base, base + 8) =~= entry.subrange(0, 8));
    assert(tag.subrange(base + 8, base + 16) =~= entry.subrange(8, 16));
    assert(tag.subrange(base + 16, base + 20) =~= entry.subrange(16, 20));
    assert(tag.subrange(base + 20, base + 24) =~= entry.subrange(20, 24));
    assert(entry.subrange(0, 8) =~= le_bytes(regions[i].start as nat, 8));
    assert(entry.subrange(8, 16) =~= le_bytes(regions[i].length as nat, 8));
    assert(entry.subrange(16, 20) =~= le_bytes(memory_kind_code(regions[i].kind) as nat, 4));
    assert(entry.subrange(20, 24) =~= le_bytes(0, 4));
}

/// Writes tag 6, the memory map.
fn write_memory_map_tag(target: &mut [u8], cursor: usize, regions: &[FirmwareMemoryRegion]) -> (r:
    Result<usize, HandoffError>)
    requires
        cursor % 8 == 0,
        cursor <= old(target)@.len(),
        regions@.len() <= MAXIMUM_MEMORY_REGIONS,
    ensures
        tag_written(
            r,
            old(target)@,
            final(target)@,
            cursor as int,
            memory_map_size(regions@.len()),
            memory_map_tag(regions@),
        ),
{
    let ghost origin = target@;
    let ghost at = cursor as int;
    let ghost entries = region_entries(regions@);
    let ghost content = le_bytes(TAG_MEMORY_MAP as nat, 4) + le_bytes(memory_map_size(regions@.len()), 4)
        + le_bytes(MEMORY_MAP_ENTRY_BYTES as nat, 4) + le_bytes(0, 4) + entries;
    let ghost tag = memory_map_tag(regions@);
    proof {
        if regions@.len() > 0 {
            lemma_region_entries(regions@, 0);
        }
    }
    assert(entries.len() == MEMORY_MAP_ENTRY_BYTES * regions@.len());
    assert(tag.subrange(0, 4) =~= le_bytes(TAG_MEMORY_MAP as nat, 4));
    assert(tag.subrange(4, 8) =~= le_bytes(memory_map_size(regions@.len()), 4));
    assert(tag.subrange(8, 12) =~= le_bytes(MEMORY_MAP_ENTRY_BYTES as nat, 4));
    assert(tag.subrange(12, 16) =~= le_bytes(0, 4));
    assert(tag.take(content.len() as int) =~= content);
    proof {
        lemma_spliced_nothing(origin, at, tag);
    }
    let count = regions.len();
    let size = MEMORY_MAP_HEADER_BYTES + count * MEMORY_MAP_ENTRY_BYTES;
    let mut c = match write_tag_header(target, cursor, TAG_MEMORY_MAP, size, Ghost(origin), Ghost(tag)) {
        Ok(c) => c,
        Err(e) => {
            proof {
                lemma_partial(target@, origin, at, tag, 0);
            }
            return Err(e);
        },
    };
    c = match emit_le(target, c, MEMORY_MAP_ENTRY_BYTES as u64, 4, Ghost(origin), Ghost(at), Ghost(tag)) {
        Ok(c) => c,
        Err(e) => {
            proof {
                lemma_partial(target@, origin, at, tag, 8);
            }
            return Err(e);
        },
    };
    c = match emit_le(target, c, 0, 4, Ghost(origin), Ghost(at), Ghost(tag)) {
        Ok(c) => c,
        Err(e) => {
            proof {
                lemma_partial(target@, origin, at, tag, 12);
            }
            return Err(e);
        },
    };
    let mut index: usize = 0;
    while index < count
        invariant
            count == regions@.len() <= MAXIMUM_MEMORY_REGIONS,
            index <= count,
            origin == old(target)@,
            at == cursor,
            at % 8 == 0,
            c == at + 16 + 24 * index,
            tag == memory_map_tag(regions@),
            content == le_bytes(TAG_MEMORY_MAP as nat, 4) + le_bytes(memory_map_size(regions@.len()), 4)
                + le_bytes(MEMORY_MAP_ENTRY_BYTES as nat, 4) + le_bytes(0, 4) + entries,
            entries == region_entries(regions@),
            entries.len() == MEMORY_MAP_ENTRY_BYTES * regions@.len(),
            tag == padded(content),
            target@.len() == origin.len(),
            spliced(target@, origin, at, tag.take(16 + 24 * index)),
        decreases count - index,
    {
        let region = regions[index];
        proof {
            lemma_memory_map_fields(regions@, index as int);
        }
        let base = c;
        c = match emit_le(target, c, region.start, 8, Ghost(origin), Ghost(at), Ghost(tag)) {
            Ok(c) => c,
            Err(e) => {
                proof {
                    lemma_partial(target@, origin, at, tag, base - at);
                }
                return Err(e);
            },
        };
        c = match emit_le(target, c, region.length, 8, Ghost(origin), Ghost(at), Ghost(tag)) {
            Ok(c) => c,
            Err(e) => {
                proof {
                    lemma_partial(target@, origin, at, tag, base - at + 8);
                }
                return Err(e);
            },
        };
        let code = region.kind.multiboot_type();
        c = match emit_le(target, c, code as u64, 4, Ghost(origin), Ghost(at), Ghost(tag)) {
            Ok(c) => c,
            Err(e) => {
                proof {
                    lemma_partial(target@, origin, at, tag, base - at + 16);
                }
                return Err(e);
            },
        };
        c = match emit_le(target, c, 0, 4, Ghost(origin), Ghost(at), Ghost(tag)) {
            Ok(c) => c,
            Err(e) => {
                proof {
                    lemma_partial(target@, origin, at, tag, base - at + 20);
                }
                return Err(e);
            },
        };
        index = index + 1;
    }
    match emit_padding(target, c, Ghost(origin), Ghost(at), Ghost(content)) {
        Ok(c) => Ok(c),
        Err(e) => {
            proof {
                lemma_partial(target@, origin, at, tag, content.len() as int);
            }
            Err(e)
        },
    }
}

/// Writes tag 3 for one module.
fn write_module_tag(target: &mut [u8], cursor: usize, module: BootModule) -> (r: Result<
    usize,
    HandoffError,
>)
    requires
        cursor % 8 == 0,
        cursor <= old(target)@.len(),
        !module_invalid(module@),
    ensures
        tag_written(
            r,
            old(target)@,
            final(target)@,
            cursor as int,
            module_size(module@),
            module_tag(module@),
        ),
{
    let ghost origin = target@;
    let ghost at = cursor as int;
    let ghost m = module@;
    let ghost name_len = m.name.len() as int;
    let ghost content = le_bytes(TAG_MODULE as nat, 4) + le_bytes(module_size(m), 4) + le_bytes(
        m.start as nat,
        4,
    ) + le_bytes((m.start + m.bytes) as nat, 4) + m.name + seq![0u8];
    let ghost tag = module_tag(m);
    assert(tag.subrange(0, 4) =~= le_bytes(TAG_MODULE as nat, 4));
    assert(tag.subrange(4, 8) =~= le_bytes(module_size(m), 4));
    assert(tag.subrange(8, 12) =~= le_bytes(m.start as nat, 4));
    assert(tag.subrange(12, 16) =~= le_bytes((m.start + m.bytes) as nat, 4));
    assert(tag.subrange(16, 16 + name_len) =~= m.name);
    assert(tag[16 + name_len] == 0u8);
    assert(tag.take(content.len() as int) =~= content);
    proof {
        lemma_spliced_nothing(origin, at, tag);
    }
    let name_length = module.name.len();
    if name_length > usize::MAX - 17 {
        proof {
            lemma_partial(target@, origin, at, tag, 0);
        }
        return Err(HandoffError::SizeOverflow);
    }
    let size = MODULE_HEADER_BYTES + name_length + 1;
    let mut c = match write_tag_header(target, cursor, TAG_MODULE, size, Ghost(origin), Ghost(tag)) {
        Ok(c) => c,
        Err(e) => {
            proof {
                lemma_partial(target@, origin, at, tag, 0);
            }
            return Err(e);
        },
    };
    c = match emit_le(target, c, module.start, 4, Ghost(origin), Ghost(at), Ghost(tag)) {
        Ok(c) => c,
        Err(e) => {
            proof {
                lemma_partial(target@, origin, at, tag, 8);
            }
            return Err(e);
        },
    };
    c = match emit_le(target, c, module.start + module.bytes, 4, Ghost(origin), Ghost(at), Ghost(tag)) {
        Ok(c) => c,
        Err(e) => {
            proof {
                lemma_partial(target@, origin, at, tag, 12);
            }
            return Err(e);
        },
    };
    c = match emit_bytes(target, c, module.name, Ghost(origin), Ghost(at), Ghost(tag)) {
        Ok(c) => c,
        Err(e) => {
            proof {
                lemma_partial(target@, origin, at, tag, 16);
            }
            return Err(e);
        },
    };
    c = match emit_u8(target, c, 0, Ghost(origin), Ghost(at), Ghost(tag)) {
        Ok(c) => c,
        Err(e) => {
            proof {
                lemma_partial(target@, origin, at, tag, 16 + name_len);
            }
            return Err(e);
        },
    };
    match emit_padding(target, c, Ghost(origin), Ghost(at), Ghost(content)) {
        Ok(c) => Ok(c),
        Err(e) => {
            proof {
                lemma_partial(target@, origin, at, tag, content.len() as int);
            }
            Err(e)
        },
    }
}

/// Writes tag 8, the framebuffer.
fn write_framebuffer_tag(target: &mut [u8], cursor: usize, framebuffer: Framebuffer) -> (r: Result<
    usize,
    HandoffError,
>)
    requires
        cursor % 8 == 0,
        cursor <= old(target)@.len(),
    ensures
        tag_written(
            r,
            old(target)@,
            final(target)@,
            cursor as int,
            FRAMEBUFFER_TAG_BYTES as nat,
            framebuffer_tag(framebuffer),
        ),
{
    let ghost origin = target@;
    let ghost at = cursor as int;
    let ghost f = framebuffer;
    let ghost content = le_bytes(TAG_FRAMEBUFFER as nat, 4) + le_bytes(FRAMEBUFFER_TAG_BYTES as nat, 4)
        + le_bytes(f.physical_address as nat, 8) + le_bytes(f.pitch as nat, 4) + le_bytes(
        f.width as nat,
        4,
    ) + le_bytes(f.height as nat, 4) + seq![
        32u8,
        1u8,
        0u8,
        0u8,
        f.red_position,
        8u8,
        f.green_position,
        8u8,
        f.blue_position,
        8u8,
    ];
    let ghost tag = framebuffer_tag(f);
    proof {
        reveal_with_fuel(le_bytes, 3);
    }
    assert(tag.subrange(0, 4) =~= le_bytes(TAG_FRAMEBUFFER as nat, 4));
    assert(tag.subrange(4, 8) =~= le_bytes(FRAMEBUFFER_TAG_BYTES as nat, 4));
    assert(tag.subrange(8, 16) =~= le_bytes(f.physical_address as nat, 8));
    assert(tag.subrange(16, 20) =~= le_bytes(f.pitch as nat, 4));
    assert(tag.subrange(20, 24) =~= le_bytes(f.width as nat, 4));
    assert(tag.subrange(24, 28) =~= le_bytes(f.height as nat, 4));
    assert(tag[28] == 32u8);
    assert(tag[29] == 1u8);
    assert(tag.subrange(30, 32) =~= le_bytes(0, 2));
    assert(tag[32] == f.red_position);
    assert(tag[33] == 8u8);
    assert(tag[34] == f.green_position);
    assert(tag[35] == 8u8);
    assert(tag[36] == f.blue_position);
    assert(tag[37] == 8u8);
    assert(tag.take(content.len() as int) =~= content);
    proof {
        lemma_spliced_nothing(origin, at, tag);
    }
    let mut c = match write_tag_header(
        target,
        cursor,
        TAG_FRAMEBUFFER,
        FRAMEBUFFER_TAG_BYTES,
        Ghost(origin),
        Ghost(tag),
    ) {
        Ok(c) => c,
        Err(e) => {
            proof {
                lemma_partial(target@, origin, at, tag, 0);
            }
            return Err(e);
        },
    };
    c = match emit_le(target, c, framebuffer.physical_address, 8, Ghost(origin), Ghost(at), Ghost(tag)) {
        Ok(c) => c,
        Err(e) => {
            proof {
                lemma_partial(target@, origin, at, tag, 8);
            }
            return Err(e);
        },
    };
    c = match emit_le(target, c, framebuffer.pitch as u64, 4, Ghost(origin), Ghost(at), Ghost(tag)) {
        Ok(c) => c,
        Err(e) => {
            proof {
                lemma_partial(target@, origin, at, tag, 16);
            }
            return Err(e);
        },
    };
    c = match emit_le(target, c, framebuffer.width as u64, 4, Ghost(origin), Ghost(at), Ghost(tag)) {
        Ok(c) => c,
        Err(e) => {
            proof {
                lemma_partial(target@, origin, at, tag, 20);
            }
            return Err(e);
        },
    };
    c = match emit_le(target, c, framebuffer.height as u64, 4, Ghost(origin), Ghost(at), Ghost(tag)) {
        Ok(c) => c,
        Err(e) => {
            proof {
                lemma_partial(target@, origin, at, tag, 24);
            }
            return Err(e);
        },
    };
    c = match emit_u8(target, c, 32, Ghost(origin), Ghost(at), Ghost(tag)) {
        Ok(c) => c,
        Err(e) => {
            proof {
                lemma_partial(target@, origin, at, tag, 28);
            }
            return Err(e);
        },
    };
    c = match emit_u8(target, c, 1, Ghost(origin), Ghost(at), Ghost(tag)) {
        Ok(c) => c,
        Err(e) => {
            proof {
                lemma_partial(target@, origin, at, tag, 29);
            }
            return Err(e);
        },
    };
    c = match emit_le(target, c, 0, 2, Ghost(origin), Ghost(at), Ghost(tag)) {
        Ok(c) => c,
        Err(e) => {
            proof {
                lemma_partial(target@, origin, at, tag, 30);
            }
            return Err(e);
        },
    };
    c = match emit_u8(target, c, framebuffer.red_position, Ghost(origin), Ghost(at), Ghost(tag)) {
        Ok(c) => c,
        Err(e) => {
            proof {
                lemma_partial(target@, origin, at, tag, 32);
            }
            return Err(e);
        },
    };
    c = match emit_u8(target, c, 8, Ghost(origin), Ghost(at), Ghost(tag)) {
        Ok(c) => c,
        Err(e) => {
            proof {
                lemma_partial(target@, origin, at, tag, 33);
            }
            return Err(e);
        },
    };
    c = match emit_u8(target, c, framebuffer.green_position, Ghost(origin), Ghost(at), Ghost(tag)) {
        Ok(c) => c,
        Err(e) => {
            proof {
                lemma_partial(target@, origin, at, tag, 34);
            }
            return Err(e);
        },
    };
    c = match emit_u8(target, c, 8, Ghost(origin), Ghost(at), Ghost(tag)) {
        Ok(c) => c,
        Err(e) => {
            proof {
                lemma_partial(target@, origin, at, tag, 35);
            }
            return Err(e);
        },
    };
    c = match emit_u8(target, c, framebuffer.blue_position, Ghost(origin), Ghost(at), Ghost(tag)) {
        Ok(c) => c,
        Err(e) => {
            proof {
                lemma_partial(target@, origin, at, tag, 36);
            }
            return Err(e);
        },
    };
    c = match emit_u8(target, c, 8, Ghost(origin), Ghost(at), Ghost(tag)) {
        Ok(c) => c,
        Err(e) => {
            proof {
                lemma_partial(target@, origin, at, tag, 37);
            }
            return Err(e);
        },
    };
    match emit_padding(target, c, Ghost(origin), Ghost(at), Ghost(content)) {
        Ok(c) => Ok(c),
        Err(e) => {
            proof {
                lemma_partial(target@, origin, at, tag, content.len() as int);
            }
            Err(e)
        },
    }
}

proof fn lemma_padded_len(s: Seq<u8>)
    ensures
        padded(s).len() == s.len() + padding(s.len()),
        padded(s).len() % 8 == 0,
{
}

proof fn lemma_module_tags_concat(a: Seq<ModuleView>, b: Seq<ModuleView>)
    ensures
        module_tags(a + b) == module_tags(a) + module_tags(b),
    decreases b.len(),
{
    if b.len() == 0 {
        assert(a + b =~= a);
        assert(module_tags(b) =~= Seq::<u8>::empty());
        assert(module_tags(a) + module_tags(b) =~= module_tags(a));
    } else {
        lemma_module_tags_concat(a, b.drop_last());
        assert((a + b).drop_last() =~= a + b.drop_last());
        assert((a + b).last() == b.last());
        assert(module_tags(a + b) =~= module_tags(a) + module_tags(b));
    }
}

proof fn lemma_module_tags_step(modules: Seq<ModuleView>, i: int)
    requires
        0 <= i < modules.len(),
    ensures
        module_tags(modules.take(i + 1)) == module_tags(modules.take(i)) + module_tag(modules[i]),
        module_tags(modules) == module_tags(modules.take(i + 1)) + module_tags(modules.skip(i + 1)),
{
    assert(modules.take(i + 1).drop_last() =~= modules.take(i));
    lemma_module_tags_concat(modules.take(i + 1), modules.skip(i + 1));
    assert(modules.take(i + 1) + modules.skip(i + 1) =~= modules);
}

/// An obstacle met among the first `m` modules is the obstacle of all of them.
proof fn lemma_modules_outcome_error(modules: Seq<ModuleView>, m: int, cursor: nat, capacity: nat)
    requires
        0 <= m <= modules.len(),
        modules_outcome(modules.take(m), cursor, capacity) is Err,
    ensures
        modules_outcome(modules, cursor, capacity) == modules_outcome(modules.take(m), cursor, capacity),
    decreases modules.len() - m,
{
    if m < modules.len() {
        assert(modules.take(m + 1).drop_last() =~= modules.take(m));
        lemma_modules_outcome_error(modules, m + 1, cursor, capacity);
    } else {
        assert(modules.take(m) =~= modules);
    }
}

/// The views of the modules, in order.
pub open spec fn module_views<'a>(modules: Seq<BootModule<'a>>) -> Seq<ModuleView> {
    modules.map_values(|m: BootModule<'a>| m@)
}

fn module_is_invalid(module: &BootModule) -> (r: bool)
    ensures
        r == module_invalid(module@),
{
    let end = match module.end() {
        Some(end) => end,
        None => return true,
    };
    if module.bytes == 0 || end > u32::MAX as u64 || module.name.len() == 0 {
        return true;
    }
    let mut index: usize = 0;
    while index < module.name.len()
        invariant
            index <= module.name@.len(),
            forall|j: int| 0 <= j < index ==> module.name@[j] != 0u8,
        decreases module.name@.len() - index,
    {
        if module.name[index] == 0 {
            assert(module.name@.contains(0u8));
            return true;
        }
        index = index + 1;
    }
    false
}

fn framebuffer_is_invalid(framebuffer: &Framebuffer) -> (r: bool)
    ensures
        r == framebuffer_invalid(*framebuffer),
{
    let required = match (framebuffer.pitch as u64).checked_mul(framebuffer.height as u64) {
        Some(required) => required,
        None => return true,
    };
    let minimum_pitch: u32 = if framebuffer.width > u32::MAX / 4 {
        u32::MAX
    } else {
        framebuffer.width * 4
    };
    framebuffer.physical_address == 0 || framebuffer.width == 0 || framebuffer.height == 0
        || framebuffer.pitch < minimum_pitch || required > framebuffer.byte_length
        || framebuffer.physical_address.checked_add(required).is_none()
}

/// Checks the inputs in Granite's order before anything is written.
fn check_handoff_inputs(
    memory_regions: &[FirmwareMemoryRegion],
    modules: &[BootModule<'_>],
    framebuffer: Option<Framebuffer>,
    acpi_root: &[u8],
) -> (r: Result<(), HandoffError>)
    ensures
        r == (match handoff_input_error(memory_regions@, module_views(modules@), framebuffer, acpi_root@) {
            Some(e) => Err(e),
            None => Ok(()),
        }),
{
    let ghost views = module_views(modules@);
    if memory_regions.len() > MAXIMUM_MEMORY_REGIONS {
        return Err(HandoffError::TooManyMemoryRegions);
    }
    if acpi_root.len() < 20 || acpi_root.len() > 4096 {
        return Err(HandoffError::InvalidAcpiRoot);
    }
    let mut index: usize = 0;
    while index < memory_regions.len()
        invariant
            index <= memory_regions@.len() <= MAXIMUM_MEMORY_REGIONS,
            20 <= acpi_root@.len() <= 4096,
            forall|j: int| 0 <= j < index ==> !region_invalid(#[trigger] memory_regions@[j]),
        decreases memory_regions@.len() - index,
    {
        let region = memory_regions[index];
        if region.length == 0 || region.end().is_none() {
            assert(region_invalid(memory_regions@[index as int]));
            return Err(HandoffError::InvalidMemoryRegion);
        }
        index = index + 1;
    }
    let mut index: usize = 0;
    while index < modules.len()
        invariant
            index <= modules@.len(),
            memory_regions@.len() <= MAXIMUM_MEMORY_REGIONS,
            20 <= acpi_root@.len() <= 4096,
            forall|j: int| 0 <= j < memory_regions@.len() ==> !region_invalid(#[trigger] memory_regions@[j]),
            views == module_views(modules@),
            forall|j: int| 0 <= j < index ==> !module_invalid(#[trigger] views[j]),
        decreases modules@.len() - index,
    {
        if module_is_invalid(&modules[index]) {
            assert(module_invalid(views[index as int]));
            return Err(HandoffError::InvalidModule);
        }
        index = index + 1;
    }
    match framebuffer {
        Some(f) => {
            if framebuffer_is_invalid(&f) {
                return Err(HandoffError::InvalidFramebuffer);
            }
        },
        None => {},
    }
    Ok(())
}

/// Writes the module tags in order from the 8-aligned `cursor`.
fn write_module_tags(target: &mut [u8], cursor: usize, modules: &[BootModule<'_>]) -> (r: Result<
    usize,
    HandoffError,
>)
    requires
        cursor % 8 == 0,
        cursor <= old(target)@.len(),
        forall|j: int| 0 <= j < modules@.len() ==> !module_invalid(#[trigger] module_views(modules@)[j]),
    ensures
        final(target)@.len() == old(target)@.len(),
        match r {
            Ok(c) => modules_outcome(module_views(modules@), cursor as nat, old(target)@.len())
                == Ok::<nat, HandoffError>(c as nat) && c % 8 == 0 && c == cursor + module_tags(
                module_views(modules@),
            ).len() && spliced(
                final(target)@,
                old(target)@,
                cursor as int,
                module_tags(module_views(modules@)),
            ),
            Err(e) => modules_outcome(module_views(modules@), cursor as nat, old(target)@.len())
                == Err::<nat, HandoffError>(e) && partially_spliced(
                final(target)@,
                old(target)@,
                cursor as int,
                module_tags(module_views(modules@)),
            ),
        },
{
    let ghost origin = target@;
    let ghost capacity = origin.len();
    let ghost views = module_views(modules@);
    let ghost at = cursor as int;
    let mut c = cursor;
    let mut index: usize = 0;
    assert(views.take(0) =~= Seq::<ModuleView>::empty());
    proof {
        lemma_spliced_nothing(origin, at, Seq::<u8>::empty());
    }
    assert(Seq::<u8>::empty().take(0) =~= module_tags(views.take(0)));
    while index < modules.len()
        invariant
            index <= modules@.len(),
            views == module_views(modules@),
            views.len() == modules@.len(),
            forall|j: int| 0 <= j < views.len() ==> !module_invalid(#[trigger] views[j]),
            origin == old(target)@,
            capacity == origin.len(),
            at == cursor,
            target@.len() == origin.len(),
            c == at + module_tags(views.take(index as int)).len(),
            c % 8 == 0,
            modules_outcome(views.take(index as int), cursor as nat, capacity) == Ok::<nat, HandoffError>(
                c as nat,
            ),
            spliced(target@, origin, at, module_tags(views.take(index as int))),
        decreases modules@.len() - index,
    {
        let ghost before = target@;
        let ghost done = module_tags(views.take(index as int));
        let ghost m = views[index as int];
        let ghost tag = module_tag(m);
        proof {
            lemma_module_tags_step(views, index as int);
            lemma_padded_len(
                le_bytes(TAG_MODULE as nat, 4) + le_bytes(module_size(m), 4) + le_bytes(m.start as nat, 4)
                    + le_bytes((m.start + m.bytes) as nat, 4) + m.name + seq![0u8],
            );
            assert(views.take(index + 1).drop_last() =~= views.take(index as int));
        }
        assert(m == modules@[index as int]@);
        match write_module_tag(target, c, modules[index]) {
            Ok(next) => {
                proof {
                    lemma_splice_chain(origin, before, target@, at, done, tag);
                }
                c = next;
            },
            Err(e) => {
                proof {
                    lemma_splice_chain_partial(origin, before, target@, at, done, tag);
                    lemma_partial_extend(target@, origin, at, done + tag, module_tags(views.skip(index + 1)));
                    assert(done + tag + module_tags(views.skip(index + 1)) =~= module_tags(views));
                    lemma_modules_outcome_error(views, index + 1, cursor as nat, capacity);
                }
                return Err(e);
            },
        }
        index = index + 1;
    }
    assert(views.take(views.len() as int) =~= views);
    Ok(c)
}

/// Writes the reserved header, the memory map and the module tags.
fn write_leading(target: &mut [u8], memory_regions: &[FirmwareMemoryRegion], modules: &[BootModule<'_>]) -> (r:
    Result<usize, HandoffError>)
    requires
        memory_regions@.len() <= MAXIMUM_MEMORY_REGIONS,
        forall|j: int| 0 <= j < modules@.len() ==> !module_invalid(#[trigger] module_views(modules@)[j]),
    ensures
        final(target)@.len() == old(target)@.len(),
        ({
            let data = zeros(8) + memory_map_tag(memory_regions@) + module_tags(module_views(modules@));
            match r {
                Ok(c) => leading_outcome(memory_regions@, module_views(modules@), old(target)@.len())
                    == Ok::<nat, HandoffError>(c as nat) && c == data.len() && c % 8 == 0 && spliced(
                    final(target)@,
                    old(target)@,
                    0,
                    data,
                ),
                Err(e) => leading_outcome(memory_regions@, module_views(modules@), old(target)@.len())
                    == Err::<nat, HandoffError>(e) && partially_spliced(final(target)@, old(target)@, 0, data),
            }
        }),
{
    let ghost origin = target@;
    let ghost regions = memory_regions@;
    let ghost views = module_views(modules@);
    let ghost mmap = memory_map_tag(regions);
    let ghost mods = module_tags(views);
    let ghost data = zeros(8) + mmap + mods;
    proof {
        lemma_spliced_nothing(origin, 0, zeros(8));
        lemma_padded_len(
            le_bytes(TAG_MEMORY_MAP as nat, 4) + le_bytes(memory_map_size(regions.len()), 4) + le_bytes(
                MEMORY_MAP_ENTRY_BYTES as nat,
                4,
            ) + le_bytes(0, 4) + region_entries(regions),
        );
    }
    assert(zeros(8).subrange(0, 8) =~= zeros(8));
    let c = match emit_zeros(target, 0, MULTIBOOT_HEADER_BYTES, Ghost(origin), Ghost(0), Ghost(zeros(8))) {
        Ok(c) => c,
        Err(e) => {
            proof {
                lemma_spliced_nothing(origin, 0, data);
                lemma_partial(target@, origin, 0, data, 0);
            }
            return Err(e);
        },
    };
    assert(zeros(8).take(8) =~= zeros(8));
    let ghost before = target@;
    let c = match write_memory_map_tag(target, c, memory_regions) {
        Ok(c) => c,
        Err(e) => {
            proof {
                lemma_splice_chain_partial(origin, before, target@, 0, zeros(8), mmap);
                lemma_partial_extend(target@, origin, 0, zeros(8) + mmap, mods);
            }
            return Err(e);
        },
    };
    proof {
        lemma_splice_chain(origin, before, target@, 0, zeros(8), mmap);
    }
    let ghost before = target@;
    match write_module_tags(target, c, modules) {
        Ok(next) => {
            proof {
                lemma_splice_chain(origin, before, target@, 0, zeros(8) + mmap, mods);
            }
            Ok(next)
        },
        Err(e) => {
            proof {
                lemma_splice_chain_partial(origin, before, target@, 0, zeros(8) + mmap, mods);
            }
            Err(e)
        },
    }
}

/// Writes the framebuffer tag, if any, the ACPI tag and the end tag.
fn write_trailing(target: &mut [u8], cursor: usize, framebuffer: Option<Framebuffer>, acpi_root: &[u8]) -> (r:
    Result<usize, HandoffError>)
    requires
        cursor % 8 == 0,
        cursor <= old(target)@.len(),
        acpi_root@.len() <= 4096,
    ensures
        final(target)@.len() == old(target)@.len(),
        ({
            let data = framebuffer_part(framebuffer) + acpi_tag(acpi_root@) + end_tag();
            match r {
                Ok(c) => trailing_outcome(framebuffer, acpi_root@, cursor as nat, old(target)@.len())
                    == Ok::<nat, HandoffError>(c as nat) && c == cursor + data.len() && spliced(
                    final(target)@,
                    old(target)@,
                    cursor as int,
                    data,
                ),
                Err(e) => trailing_outcome(framebuffer, acpi_root@, cursor as nat, old(target)@.len())
                    == Err::<nat, HandoffError>(e) && partially_spliced(
                    final(target)@,
                    old(target)@,
                    cursor as int,
                    data,
                ),
            }
        }),
{
    let ghost origin = target@;
    let ghost acpi = acpi_root@;
    let ghost at = cursor as int;
    let ghost fb_part = framebuffer_part(framebuffer);
    let ghost acpi_part = acpi_tag(acpi);
    let mut c = cursor;
    let ghost before = target@;
    match framebuffer {
        Some(f) => {
            proof {
                lemma_padded_len(
                    le_bytes(TAG_FRAMEBUFFER as nat, 4) + le_bytes(FRAMEBUFFER_TAG_BYTES as nat, 4)
                        + le_bytes(f.physical_address as nat, 8) + le_bytes(f.pitch as nat, 4)
                        + le_bytes(f.width as nat, 4) + le_bytes(f.height as nat, 4) + seq![
                        32u8,
                        1u8,
                        0u8,
                        0u8,
                        f.red_position,
                        8u8,
                        f.green_position,
                        8u8,
                        f.blue_position,
                        8u8,
                    ],
                );
            }
            match write_framebuffer_tag(target, c, f) {
                Ok(next) => {
                    c = next;
                },
                Err(e) => {
                    proof {
                        lemma_partial_extend(target@, origin, at, fb_part, acpi_part + end_tag());
                        assert(fb_part + (acpi_part + end_tag()) =~= fb_part + acpi_part + end_tag());
                    }
                    return Err(e);
                },
            }
        },
        None => {
            assert(target@ =~= origin.take(at) + fb_part + origin.skip(at));
        },
    }
    let ghost done = fb_part;
    let ghost before = target@;
    proof {
        lemma_padded_len(le_bytes(TAG_ACPI_NEW as nat, 4) + le_bytes((8 + acpi.len()) as nat, 4) + acpi);
    }
    match write_acpi_tag(target, c, acpi_root) {
        Ok(next) => {
            proof {
                lemma_splice_chain(origin, before, target@, at, done, acpi_part);
            }
            c = next;
        },
        Err(e) => {
            proof {
                lemma_splice_chain_partial(origin, before, target@, at, done, acpi_part);
                lemma_partial_extend(target@, origin, at, done + acpi_part, end_tag());
            }
            return Err(e);
        },
    }
    let ghost done = done + acpi_part;
    let ghost before = target@;
    match write_end_tag(target, c) {
        Ok(next) => {
            proof {
                lemma_splice_chain(origin, before, target@, at, done, end_tag());
            }
            Ok(next)
        },
        Err(e) => {
            proof {
                lemma_splice_chain_partial(origin, before, target@, at, done, end_tag());
            }
            Err(e)
        },
    }
}

/// Writes a complete, aligned Multiboot2 information record into `target`
/// and returns its exact byte length. The caller owns the storage for the
/// duration of Boulder's bootstrap.
pub fn write_multiboot2(
    target: &mut [u8],
    memory_regions: &[FirmwareMemoryRegion],
    modules: &[BootModule<'_>],
    framebuffer: Option<Framebuffer>,
    acpi_root: &[u8],
) -> (r: Result<usize, HandoffError>)
    ensures
        ({
            let regions = memory_regions@;
            let views = module_views(modules@);
            let acpi = acpi_root@;
            let record = multiboot2_record(regions, views, framebuffer, acpi);
            match handoff_input_error(regions, views, framebuffer, acpi) {
                Some(e) => r == Err::<usize, HandoffError>(e) && final(target)@ == old(target)@,
                None => match record_outcome(regions, views, framebuffer, acpi, old(target)@.len()) {
                    Ok(n) => r == Ok::<usize, HandoffError>(n as usize) && n == record.len()
                        && final(target)@ == record + old(target)@.skip(n as int),
                    Err(e) => r == Err::<usize, HandoffError>(e) && final(target)@.len() == old(
                        target,
                    )@.len() && partially_spliced(
                        final(target)@,
                        old(target)@,
                        0,
                        zeros(8) + multiboot2_body(regions, views, framebuffer, acpi),
                    ),
                },
            }
        }),
{
    let ghost regions = memory_regions@;
    let ghost views = module_views(modules@);
    let ghost acpi = acpi_root@;
    match check_handoff_inputs(memory_regions, modules, framebuffer, acpi_root) {
        Ok(()) => {},
        Err(e) => return Err(e),
    }
    let ghost origin = target@;
    let ghost body = multiboot2_body(regions, views, framebuffer, acpi);
    let ghost leading = zeros(8) + memory_map_tag(regions) + module_tags(views);
    let ghost trailing = framebuffer_part(framebuffer) + acpi_tag(acpi) + end_tag();
    assert(zeros(8) + body =~= leading + trailing);
    let c = match write_leading(target, memory_regions, modules) {
        Ok(c) => c,
        Err(e) => {
            proof {
                lemma_partial_extend(target@, origin, 0, leading, trailing);
            }
            return Err(e);
        },
    };
    let ghost before = target@;
    let total = match write_trailing(target, c, framebuffer, acpi_root) {
        Ok(total) => total,
        Err(e) => {
            proof {
                lemma_splice_chain_partial(origin, before, target@, 0, leading, trailing);
            }
            return Err(e);
        },
    };
    proof {
        lemma_splice_chain(origin, before, target@, 0, leading, trailing);
    }
    let ghost before = target@;
    match finish_header(target, total, Ghost(origin), Ghost(body)) {
        Ok(n) => Ok(n),
        Err(e) => {
            proof {
                assert((zeros(8) + body).take((zeros(8) + body).len() as int) =~= zeros(8) + body);
                lemma_partial(target@, origin, 0, zeros(8) + body, (zeros(8) + body).len() as int);
            }
            Err(e)
        },
    }
}

/// Completes the record once every tag is in place: the total size, then
/// a reserved zero word.
fn finish_header(
    target: &mut [u8],
    total: usize,
    Ghost(origin): Ghost<Seq<u8>>,
    Ghost(body): Ghost<Seq<u8>>,
) -> (r: Result<usize, HandoffError>)
    requires
        total == 8 + body.len(),
        spliced(old(target)@, origin, 0, zeros(8) + body),
    ensures
        final(target)@.len() == origin.len(),
        match r {
            Ok(n) => total <= u32::MAX && n == total && final(target)@ == le_bytes(total as nat, 4)
                + zeros(4) + body + origin.skip(total as int),
            Err(e) => total > u32::MAX && e == HandoffError::SizeOverflow && final(target)@ == old(
                target,
            )@,
        },
{
    if total > u32::MAX as usize {
        return Err(HandoffError::SizeOverflow);
    }
    let ghost written = target@;
    let ghost header = le_bytes(total as nat, 4) + zeros(4);
    assert(header.subrange(0, 4) =~= le_bytes(total as nat, 4));
    assert(header.subrange(4, 8) =~= zeros(4));
    proof {
        lemma_spliced_nothing(written, 0, header);
    }
    let h = match emit_le(target, 0, total as u64, 4, Ghost(written), Ghost(0), Ghost(header)) {
        Ok(h) => h,
        Err(e) => return Err(e),
    };
    match emit_zeros(target, h, 4, Ghost(written), Ghost(0), Ghost(header)) {
        Ok(_) => {},
        Err(e) => return Err(e),
    }
    assert(header.take(8) =~= header);
    assert(target@ =~= header + body + origin.skip(total as int));
    Ok(total)
}

// ---------------------------------------------------------------------------
// The shape of every written record.

proof fn lemma_module_tags_len(modules: Seq<ModuleView>)
    ensures
        module_tags(modules).len() % 8 == 0,
    decreases modules.len(),
{
    if modules.len() > 0 {
        lemma_module_tags_len(modules.drop_last());
        let m = modules.last();
        lemma_padded_len(
            le_bytes(TAG_MODULE as nat, 4) + le_bytes(module_size(m), 4) + le_bytes(m.start as nat, 4)
                + le_bytes((m.start + m.bytes) as nat, 4) + m.name + seq![0u8],
        );
    }
}

proof fn lemma_modules_outcome_value(modules: Seq<ModuleView>, cursor: nat, capacity: nat)
    requires
        modules_outcome(modules, cursor, capacity) is Ok,
    ensures
        modules_outcome(modules, cursor, capacity) == Ok::<nat, HandoffError>(
            cursor + module_tags(modules).len(),
        ),
    decreases modules.len(),
{
    if modules.len() > 0 {
        lemma_modules_outcome_value(modules.drop_last(), cursor, capacity);
    }
}

proof fn lemma_tag_lengths(
    regions: Seq<FirmwareMemoryRegion>,
    modules: Seq<ModuleView>,
    framebuffer: Option<Framebuffer>,
    acpi_root: Seq<u8>,
)
    ensures
        memory_map_tag(regions).len() % 8 == 0,
        memory_map_tag(regions).len() >= 16,
        module_tags(modules).len() % 8 == 0,
        framebuffer_part(framebuffer).len() % 8 == 0,
        acpi_tag(acpi_root).len() % 8 == 0,
        end_tag().len() == 8,
{
    lemma_padded_len(
        le_bytes(TAG_MEMORY_MAP as nat, 4) + le_bytes(memory_map_size(regions.len()), 4) + le_bytes(
            MEMORY_MAP_ENTRY_BYTES as nat,
            4,
        ) + le_bytes(0, 4) + region_entries(regions),
    );
    lemma_module_tags_len(modules);
    lemma_padded_len(le_bytes(TAG_ACPI_NEW as nat, 4) + le_bytes((8 + acpi_root.len()) as nat, 4) + acpi_root);
    match framebuffer {
        Some(f) => {
            lemma_padded_len(
                le_bytes(TAG_FRAMEBUFFER as nat, 4) + le_bytes(FRAMEBUFFER_TAG_BYTES as nat, 4)
                    + le_bytes(f.physical_address as nat, 8) + le_bytes(f.pitch as nat, 4) + le_bytes(
                    f.width as nat,
                    4,
                ) + le_bytes(f.height as nat, 4) + seq![
                    32u8,
                    1u8,
                    0u8,
                    0u8,
                    f.red_position,
                    8u8,
                    f.green_position,
                    8u8,
                    f.blue_position,
                    8u8,
                ],
            );
        },
        None => {},
    }
}

/// A successful outcome is the length of the record.
proof fn lemma_record_outcome_value(
    regions: Seq<FirmwareMemoryRegion>,
    modules: Seq<ModuleView>,
    framebuffer: Option<Framebuffer>,
    acpi_root: Seq<u8>,
    capacity: nat,
)
    requires
        record_outcome(regions, modules, framebuffer, acpi_root, capacity) is Ok,
    ensures
        record_outcome(regions, modules, framebuffer, acpi_root, capacity) == Ok::<nat, HandoffError>(
            (8 + multiboot2_body(regions, modules, framebuffer, acpi_root).len()) as nat,
        ),
        8 + multiboot2_body(regions, modules, framebuffer, acpi_root).len() <= u32::MAX,
{
    let mmap = memory_map_tag(regions);
    lemma_modules_outcome_value(modules, (MULTIBOOT_HEADER_BYTES + mmap.len()) as nat, capacity);
}

proof fn lemma_head(a: Seq<u8>, b: Seq<u8>)
    requires
        a.len() >= 4,
    ensures
        (a + b).subrange(0, 4) == a.subrange(0, 4),
{
    assert((a + b).subrange(0, 4) =~= a.subrange(0, 4));
}

proof fn lemma_tail(a: Seq<u8>, b: Seq<u8>)
    requires
        b.len() == 8,
    ensures
        (a + b).subrange(a.len() as int, a.len() + 8int) == b,
{
    assert((a + b).subrange(a.len() as int, a.len() + 8int) =~= b);
}

/// The body opens with the memory-map type word and closes with the end tag.
proof fn lemma_body_ends(
    regions: Seq<FirmwareMemoryRegion>,
    modules: Seq<ModuleView>,
    framebuffer: Option<Framebuffer>,
    acpi_root: Seq<u8>,
)
    ensures
        multiboot2_body(regions, modules, framebuffer, acpi_root).subrange(0, 4) == le_bytes(
            TAG_MEMORY_MAP as nat,
            4,
        ),
        multiboot2_body(regions, modules, framebuffer, acpi_root).len() >= 8,
        multiboot2_body(regions, modules, framebuffer, acpi_root).subrange(
            multiboot2_body(regions, modules, framebuffer, acpi_root).len() - 8,
            multiboot2_body(regions, modules, framebuffer, acpi_root).len() as int,
        ) == end_tag(),
{
    let head = le_bytes(TAG_MEMORY_MAP as nat, 4);
    let content = head + le_bytes(memory_map_size(regions.len()), 4) + le_bytes(
        MEMORY_MAP_ENTRY_BYTES as nat,
        4,
    ) + le_bytes(0, 4) + region_entries(regions);
    let mmap = memory_map_tag(regions);
    assert(content.subrange(0, 4) == head) by {
        let a = head + le_bytes(memory_map_size(regions.len()), 4) + le_bytes(MEMORY_MAP_ENTRY_BYTES as nat, 4) + le_bytes(0, 4);
        lemma_head(a, region_entries(regions));
        let b = head + le_bytes(memory_map_size(regions.len()), 4) + le_bytes(MEMORY_MAP_ENTRY_BYTES as nat, 4);
        lemma_head(b, le_bytes(0, 4));
        let c = head + le_bytes(memory_map_size(regions.len()), 4);
        lemma_head(c, le_bytes(MEMORY_MAP_ENTRY_BYTES as nat, 4));
        lemma_head(head, le_bytes(memory_map_size(regions.len()), 4));
        assert(head.subrange(0, 4) =~= head);
    }
    lemma_head(content, zeros(padding(content.len())));
    let rest = module_tags(modules) + framebuffer_part(framebuffer) + acpi_tag(acpi_root) + end_tag();
    lemma_head(mmap, module_tags(modules));
    lemma_head(mmap + module_tags(modules), framebuffer_part(framebuffer));
    lemma_head(mmap + module_tags(modules) + framebuffer_part(framebuffer), acpi_tag(acpi_root));
    lemma_head(
        mmap + module_tags(modules) + framebuffer_part(framebuffer) + acpi_tag(acpi_root),
        end_tag(),
    );
    lemma_tail(mmap + module_tags(modules) + framebuffer_part(framebuffer) + acpi_tag(acpi_root), end_tag());
}

/// The words of a record built around `body`: its length first, then
/// the first word of the body, then the last two.
proof fn lemma_record_words(body: Seq<u8>, first: nat, last: Seq<u8>)
    requires
        8 + body.len() <= u32::MAX,
        body.len() >= 8,
        body.subrange(0, 4) == le_bytes(first, 4),
        first < 0x1_0000_0000,
        body.subrange(body.len() - 8, body.len() as int) == last,
        last == end_tag(),
    ensures
        ({
            let record = le_bytes((8 + body.len()) as nat, 4) + zeros(4) + body;
            let n = record.len() as int;
            &&& n == 8 + body.len()
            &&& le_value(record.subrange(0, 4)) == n
            &&& le_value(record.subrange(8, 12)) == first
            &&& le_value(record.subrange(n - 8, n - 4)) == TAG_END
            &&& le_value(record.subrange(n - 4, n)) == 8
        }),
{
    let record = le_bytes((8 + body.len()) as nat, 4) + zeros(4) + body;
    let n = record.len() as int;
    reveal_with_fuel(pow256, 5);
    lemma_le_value_of_bytes(n as nat, 4);
    assert(record.subrange(0, 4) =~= le_bytes(n as nat, 4));
    lemma_le_value_of_bytes(first, 4);
    assert(record.subrange(8, 12) =~= body.subrange(0, 4));
    lemma_le_value_of_bytes(TAG_END as nat, 4);
    lemma_le_value_of_bytes(8, 4);
    assert(record.subrange(n - 8, n - 4) =~= last.subrange(0, 4));
    assert(last.subrange(0, 4) =~= le_bytes(TAG_END as nat, 4));
    assert(record.subrange(n - 4, n) =~= last.subrange(4, 8));
    assert(last.subrange(4, 8) =~= le_bytes(8, 4));
}

/// Every record Granite completes states its own length in its first word,
/// is a whole number of 8-byte units, opens with the memory-map tag and
/// closes with the 8-byte end tag; its length is what the writer returns.
#[verifier::spinoff_prover]
#[verifier::rlimit(40)]
pub proof fn lemma_record_shape(
    regions: Seq<FirmwareMemoryRegion>,
    modules: Seq<ModuleView>,
    framebuffer: Option<Framebuffer>,
    acpi_root: Seq<u8>,
    capacity: nat,
)
    requires
        record_outcome(regions, modules, framebuffer, acpi_root, capacity) is Ok,
    ensures
        ({
            let record = multiboot2_record(regions, modules, framebuffer, acpi_root);
            let n = record.len() as int;
            &&& record_outcome(regions, modules, framebuffer, acpi_root, capacity) == Ok::<
                nat,
                HandoffError,
            >(n as nat)
            &&& n % 8 == 0
            &&& n <= u32::MAX
            &&& le_value(record.subrange(0, 4)) == n
            &&& le_value(record.subrange(8, 12)) == TAG_MEMORY_MAP
            &&& le_value(record.subrange(n - 8, n - 4)) == TAG_END
            &&& le_value(record.subrange(n - 4, n)) == 8
        }),
{
    let body = multiboot2_body(regions, modules, framebuffer, acpi_root);
    assert(body.len() % 8 == 0) by {
        lemma_tag_lengths(regions, modules, framebuffer, acpi_root);
    }
    lemma_body_ends(regions, modules, framebuffer, acpi_root);
    lemma_record_outcome_value(regions, modules, framebuffer, acpi_root, capacity);
    lemma_record_words(body, TAG_MEMORY_MAP as nat, end_tag());
}


proof fn lemma_region_entries_at(regions: Seq<FirmwareMemoryRegion>, j: int)
    requires
        0 <= j < regions.len(),
    ensures
        region_entries(regions).len() == 24 * regions.len(),
        region_entries(regions).subrange(24 * j, 24 * j + 24) == region_entry(regions[j]),
    decreases regions.len(),
{
    let rest = regions.drop_last();
    lemma_region_entries_len(rest);
    if j < regions.len() - 1 {
        lemma_region_entries_at(rest, j);
        assert(region_entries(regions).subrange(24 * j, 24 * j + 24) =~= region_entries(rest).subrange(
            24 * j,
            24 * j + 24,
        ));
    } else {
        assert(region_entries(regions).subrange(24 * j, 24 * j + 24) =~= region_entry(regions[j]));
    }
}

proof fn lemma_region_entries_len(regions: Seq<FirmwareMemoryRegion>)
    ensures
        region_entries(regions).len() == 24 * regions.len(),
    decreases regions.len(),
{
    if regions.len() > 0 {
        lemma_region_entries_len(regions.drop_last());
    }
}

/// Memory-map entry `j` of every record sits at byte `24 + 24 j` and holds
/// region `j`: its base, its length, and its Multiboot2 type, which is 1 for
/// usable memory, 2 for reserved memory, 3 for ACPI-reclaimable memory, 4
/// for ACPI non-volatile storage and 5 for defective memory.
pub proof fn lemma_memory_map_entry(
    regions: Seq<FirmwareMemoryRegion>,
    modules: Seq<ModuleView>,
    framebuffer: Option<Framebuffer>,
    acpi_root: Seq<u8>,
    j: int,
)
    requires
        0 <= j < regions.len(),
    ensures
        ({
            let record = multiboot2_record(regions, modules, framebuffer, acpi_root);
            let at = 24 + 24 * j;
            &&& record.len() >= at + 24
            &&& le_value(record.subrange(at, at + 8)) == regions[j].start
            &&& le_value(record.subrange(at + 8, at + 16)) == regions[j].length
            &&& le_value(record.subrange(at + 16, at + 20)) == match regions[j].kind {
                MemoryKind::Usable => 1nat,
                MemoryKind::Reserved => 2nat,
                MemoryKind::AcpiReclaimable => 3nat,
                MemoryKind::AcpiNonVolatile => 4nat,
                MemoryKind::Defective => 5nat,
            }
        }),
{
    let record = multiboot2_record(regions, modules, framebuffer, acpi_root);
    let entries = region_entries(regions);
    let r = regions[j];
    lemma_region_entries_at(regions, j);
    let x = le_bytes(TAG_MEMORY_MAP as nat, 4) + le_bytes(memory_map_size(regions.len()), 4) + le_bytes(
        MEMORY_MAP_ENTRY_BYTES as nat,
        4,
    ) + le_bytes(0, 4) + entries;
    let body = multiboot2_body(regions, modules, framebuffer, acpi_root);
    assert(memory_map_tag(regions) == padded(x));
    assert(record.subrange(24 + 24 * j, 48 + 24 * j) =~= entries.subrange(24 * j, 24 * j + 24)) by {
        assert forall|t: int| 0 <= t < 24 implies #[trigger] record.subrange(24 + 24 * j, 48 + 24 * j)[t]
            == entries.subrange(24 * j, 24 * j + 24)[t] by {
            assert(record[24 + 24 * j + t] == body[16 + 24 * j + t]);
            assert(body[16 + 24 * j + t] == padded(x)[16 + 24 * j + t]);
            assert(padded(x)[16 + 24 * j + t] == x[16 + 24 * j + t]);
        }
    }
    let entry = region_entry(r);
    assert(entry.subrange(0, 8) =~= le_bytes(r.start as nat, 8));
    assert(entry.subrange(8, 16) =~= le_bytes(r.length as nat, 8));
    assert(entry.subrange(16, 20) =~= le_bytes(memory_kind_code(r.kind) as nat, 4));
    assert(record.subrange(24 + 24 * j, 32 + 24 * j) =~= entry.subrange(0, 8));
    assert(record.subrange(32 + 24 * j, 40 + 24 * j) =~= entry.subrange(8, 16));
    assert(record.subrange(40 + 24 * j, 44 + 24 * j) =~= entry.subrange(16, 20));
    reveal_with_fuel(pow256, 9);
    lemma_le_value_of_bytes(r.start as nat, 8);
    lemma_le_value_of_bytes(r.length as nat, 8);
    lemma_le_value_of_bytes(memory_kind_code(r.kind) as nat, 4);
}

} // verus!
