//! Bounded ELF64 admission for Granite's native boot artifacts.
//!
//! Granite accepts only an x86-64, little-endian `ET_EXEC` image with a
//! finite, non-overlapping set of page-aligned `PT_LOAD` segments. The parsed
//! layout needs no allocation, so it stays valid before the loader has chosen
//! any placement memory. The placement stage copies exactly these segments
//! and zeroes only their admitted tails, from the file size up to the memory
//! size.

use vstd::prelude::*;
use vstd::arithmetic::power2::{
    lemma2_to64,
    lemma_pow2_pos,
    lemma_pow2_strictly_increases,
    lemma_pow2_unfold,
    pow2,
};
use crate::bytes::{le_at, pow256, lemma_le_at_step, lemma_le_value_bound};

verus! {

pub const ELF_HEADER_BYTES: usize = 64;
pub const PROGRAM_HEADER_BYTES: usize = 56;
pub const PT_LOAD: u32 = 1;
pub const PF_EXECUTE: u32 = 1;
pub const ET_EXEC: u16 = 2;
pub const EM_X86_64: u16 = 0x3e;

/// The loader accepts a deliberately small program-header surface: an
/// untrusted table never becomes an unbounded boot-time allocation.
pub const MAXIMUM_LOAD_SEGMENTS: usize = 16;

/// The smallest segment alignment Granite admits (one page).
pub const MINIMUM_SEGMENT_ALIGNMENT: u64 = 4096;

// ---------------------------------------------------------------------------
// The model.

/// What a load segment holds, as plain values.
pub struct LoadSegmentView {
    pub file_offset: u64,
    pub virtual_address: u64,
    pub physical_address: u64,
    pub file_bytes: u64,
    pub memory_bytes: u64,
    pub flags: u32,
}

/// What an admitted layout holds: the entry address and the `PT_LOAD`
/// segments in program-header order.
pub struct LayoutView {
    pub entry: u64,
    pub segments: Seq<LoadSegmentView>,
}

/// Whether the segment flags grant execution (`PF_X`).
pub open spec fn flags_executable(flags: u32) -> bool {
    flags & 1u32 != 0u32
}

pub open spec fn file_end_of(s: LoadSegmentView) -> int {
    s.file_offset + s.file_bytes
}

pub open spec fn virtual_end_of(s: LoadSegmentView) -> int {
    s.virtual_address + s.memory_bytes
}

pub open spec fn physical_end_of(s: LoadSegmentView) -> int {
    s.physical_address + s.memory_bytes
}

/// `Some(x + y)` when the sum fits in a `u64`, `None` otherwise.
pub open spec fn checked_sum(x: u64, y: u64) -> Option<u64> {
    if x + y <= u64::MAX {
        Some((x + y) as u64)
    } else {
        None
    }
}

/// The half-open ranges `[left_start, left_end)` and `[right_start, right_end)` meet.
pub open spec fn overlaps(left_start: int, left_end: int, right_start: int, right_end: int) -> bool {
    left_start < right_end && right_start < left_end
}

/// `n` is a power of two.
pub open spec fn power_of_two(n: nat) -> bool
    decreases n,
{
    if n == 0 {
        false
    } else if n == 1 {
        true
    } else {
        n % 2 == 0 && power_of_two(n / 2)
    }
}

/// The first rule a candidate `PT_LOAD` segment breaks, checked in Granite's
/// order, for an image of `image_bytes` bytes and the declared `alignment`.
pub open spec fn segment_error(image_bytes: int, s: LoadSegmentView, alignment: u64) -> Option<
    ElfError,
> {
    if s.memory_bytes == 0 || s.file_bytes > s.memory_bytes {
        Some(ElfError::SegmentSize)
    } else if alignment < MINIMUM_SEGMENT_ALIGNMENT || !power_of_two(alignment as nat) {
        Some(ElfError::SegmentAlignment)
    } else if s.file_offset % alignment != s.virtual_address % alignment || s.file_offset
        % alignment != s.physical_address % alignment {
        Some(ElfError::SegmentAlignment)
    } else if file_end_of(s) > u64::MAX || file_end_of(s) > image_bytes {
        Some(ElfError::SegmentFileRange)
    } else if virtual_end_of(s) > u64::MAX || physical_end_of(s) > u64::MAX {
        Some(ElfError::AddressOverflow)
    } else {
        None
    }
}

/// The overlap, if any, between a candidate segment and one already admitted
/// (virtual ranges are compared first).
pub open spec fn pair_overlap_error(s: LoadSegmentView, t: LoadSegmentView) -> Option<ElfError> {
    if overlaps(s.virtual_address as int, virtual_end_of(s), t.virtual_address as int, virtual_end_of(t)) {
        Some(ElfError::VirtualOverlap)
    } else if overlaps(s.physical_address as int, physical_end_of(s), t.physical_address as int, physical_end_of(t)) {
        Some(ElfError::PhysicalOverlap)
    } else {
        None
    }
}

/// The first overlap between a candidate and the admitted segments, in
/// admission order.
pub open spec fn overlap_error(s: LoadSegmentView, accepted: Seq<LoadSegmentView>) -> Option<ElfError>
    decreases accepted.len(),
{
    if accepted.len() == 0 {
        None
    } else {
        match overlap_error(s, accepted.drop_last()) {
            Some(e) => Some(e),
            None => pair_overlap_error(s, accepted.last()),
        }
    }
}

/// The candidate segment is executable and its virtual range holds `entry`.
pub open spec fn holds_entry(s: LoadSegmentView, entry: u64) -> bool {
    flags_executable(s.flags) && s.virtual_address <= entry && entry < virtual_end_of(s)
}

/// The byte offset of program header `i`.
pub open spec fn header_base(b: Seq<u8>, i: int) -> int {
    le_at(b, 32, 8) + PROGRAM_HEADER_BYTES * i
}

/// The `p_type` of program header `i`.
pub open spec fn header_type(b: Seq<u8>, i: int) -> nat {
    le_at(b, header_base(b, i), 4)
}

/// The `p_align` of program header `i`.
pub open spec fn header_alignment(b: Seq<u8>, i: int) -> u64 {
    le_at(b, header_base(b, i) + 48, 8) as u64
}

/// The segment that program header `i` describes.
pub open spec fn header_segment(b: Seq<u8>, i: int) -> LoadSegmentView {
    segment_at(b, header_base(b, i))
}

/// The segment described by the program header at byte offset `base`.
pub open spec fn segment_at(b: Seq<u8>, base: int) -> LoadSegmentView {
    LoadSegmentView {
        flags: le_at(b, base + 4, 4) as u32,
        file_offset: le_at(b, base + 8, 8) as u64,
        virtual_address: le_at(b, base + 16, 8) as u64,
        physical_address: le_at(b, base + 24, 8) as u64,
        file_bytes: le_at(b, base + 32, 8) as u64,
        memory_bytes: le_at(b, base + 40, 8) as u64,
    }
}

/// The admission of the first `k` program headers: the segments admitted so
/// far and whether one of them executably holds the entry, or the first
/// error met.
pub open spec fn scan(b: Seq<u8>, k: nat) -> Result<(Seq<LoadSegmentView>, bool), ElfError>
    decreases k,
{
    if k == 0 {
        Ok((Seq::empty(), false))
    } else {
        match scan(b, (k - 1) as nat) {
            Err(e) => Err(e),
            Ok((accepted, entry_found)) => {
                let i = k - 1;
                if header_type(b, i) != PT_LOAD {
                    Ok((accepted, entry_found))
                } else if accepted.len() == MAXIMUM_LOAD_SEGMENTS {
                    Err(ElfError::TooManyLoadSegments)
                } else {
                    let s = header_segment(b, i);
                    match segment_error(b.len() as int, s, header_alignment(b, i)) {
                        Some(e) => Err(e),
                        None => match overlap_error(s, accepted) {
                            Some(e) => Err(e),
                            None => Ok(
                                (accepted.push(s), entry_found || holds_entry(s, le_at(b, 24, 8) as u64)),
                            ),
                        },
                    }
                }
            },
        }
    }
}

/// What Granite makes of an image: the admitted layout, or the first rule
/// the image breaks.
pub open spec fn parse_layout(b: Seq<u8>) -> Result<LayoutView, ElfError> {
    if b.len() < ELF_HEADER_BYTES {
        Err(ElfError::TruncatedHeader)
    } else if !(b[0] == 0x7f && b[1] == 0x45 && b[2] == 0x4c && b[3] == 0x46) {
        Err(ElfError::Magic)
    } else if b[4] != 2 || b[5] != 1 || b[6] != 1 {
        Err(ElfError::UnsupportedEncoding)
    } else if le_at(b, 16, 2) != ET_EXEC {
        Err(ElfError::UnsupportedType)
    } else if le_at(b, 18, 2) != EM_X86_64 {
        Err(ElfError::UnsupportedMachine)
    } else if le_at(b, 20, 4) != 1 {
        Err(ElfError::UnsupportedVersion)
    } else if le_at(b, 52, 2) != ELF_HEADER_BYTES {
        Err(ElfError::HeaderSize)
    } else if le_at(b, 54, 2) != PROGRAM_HEADER_BYTES {
        Err(ElfError::ProgramHeaderSize)
    } else if le_at(b, 32, 8) > usize::MAX {
        Err(ElfError::ProgramTableOutsideImage)
    } else if le_at(b, 56, 2) == 0 {
        Err(ElfError::NoLoadSegments)
    } else if le_at(b, 32, 8) + PROGRAM_HEADER_BYTES * le_at(b, 56, 2) > b.len() {
        Err(ElfError::ProgramTableOutsideImage)
    } else {
        match scan(b, le_at(b, 56, 2)) {
            Err(e) => Err(e),
            Ok((segments, entry_found)) => if segments.len() == 0 {
                Err(ElfError::NoLoadSegments)
            } else if !entry_found {
                Err(ElfError::EntryOutsideExecutableSegment)
            } else {
                Ok(LayoutView { entry: le_at(b, 24, 8) as u64, segments })
            },
        }
    }
}

/// A segment whose sizes are consistent and whose three ranges fit in `u64`.
pub open spec fn segment_sound(s: LoadSegmentView) -> bool {
    &&& s.memory_bytes > 0
    &&& s.file_bytes <= s.memory_bytes
    &&& file_end_of(s) <= u64::MAX
    &&& virtual_end_of(s) <= u64::MAX
    &&& physical_end_of(s) <= u64::MAX
}

/// The segments are sound and pairwise disjoint, both virtually and
/// physically.
pub open spec fn segments_disjoint(segments: Seq<LoadSegmentView>) -> bool {
    &&& forall|i: int| 0 <= i < segments.len() ==> segment_sound(#[trigger] segments[i])
    &&& forall|i: int, j: int|
        0 <= i < j < segments.len() ==> !overlaps(
            segments[i].virtual_address as int,
            virtual_end_of(segments[i]),
            segments[j].virtual_address as int,
            virtual_end_of(segments[j]),
        ) && !overlaps(
            segments[i].physical_address as int,
            physical_end_of(segments[i]),
            segments[j].physical_address as int,
            physical_end_of(segments[j]),
        )
}

/// The shape every admitted layout has: one to `MAXIMUM_LOAD_SEGMENTS` sound,
/// disjoint segments, one of which executably holds the entry.
pub open spec fn layout_well_formed(l: LayoutView) -> bool {
    &&& 1 <= l.segments.len() <= MAXIMUM_LOAD_SEGMENTS
    &&& segments_disjoint(l.segments)
    &&& exists|i: int| 0 <= i < l.segments.len() && holds_entry(#[trigger] l.segments[i], l.entry)
}

/// The segment's file offset and both its addresses lie at the same offset
/// within a page, so it can be mapped page by page.
pub open spec fn page_congruent(s: LoadSegmentView) -> bool {
    &&& s.file_offset % MINIMUM_SEGMENT_ALIGNMENT == s.virtual_address % MINIMUM_SEGMENT_ALIGNMENT
    &&& s.file_offset % MINIMUM_SEGMENT_ALIGNMENT == s.physical_address % MINIMUM_SEGMENT_ALIGNMENT
}

/// A well-formed layout whose segment file ranges lie inside the image and
/// whose file offsets and addresses agree modulo the page size.
pub open spec fn layout_admitted_from(b: Seq<u8>, l: LayoutView) -> bool {
    &&& layout_well_formed(l)
    &&& forall|i: int| 0 <= i < l.segments.len() ==> file_end_of(#[trigger] l.segments[i]) <= b.len()
    &&& forall|i: int| 0 <= i < l.segments.len() ==> page_congruent(#[trigger] l.segments[i])
}

/// Some executable segment's physical range holds `address`.
pub open spec fn executable_physical_hit(l: LayoutView, address: u64) -> bool {
    exists|i: int|
        0 <= i < l.segments.len() && segment_holds_physical(#[trigger] l.segments[i], address)
}

pub open spec fn segment_holds_physical(s: LoadSegmentView, address: u64) -> bool {
    flags_executable(s.flags) && s.physical_address <= address && physical_end_of(s) <= u64::MAX
        && address < physical_end_of(s)
}

// ---------------------------------------------------------------------------
// Load segments.

#[derive(Clone, Copy, Debug, PartialEq, Eq)]
pub struct LoadSegment {
    file_offset: u64,
    virtual_address: u64,
    physical_address: u64,
    file_bytes: u64,
    memory_bytes: u64,
    flags: u32,
}

impl View for LoadSegment {
    type V = LoadSegmentView;

    closed spec fn view(&self) -> LoadSegmentView {
        LoadSegmentView {
            file_offset: self.file_offset,
            virtual_address: self.virtual_address,
            physical_address: self.physical_address,
            file_bytes: self.file_bytes,
            memory_bytes: self.memory_bytes,
            flags: self.flags,
        }
    }
}

impl LoadSegment {
    pub fn file_offset(self) -> (r: u64)
        ensures
            r == self@.file_offset,
    {
        self.file_offset
    }

    pub fn virtual_address(self) -> (r: u64)
        ensures
            r == self@.virtual_address,
    {
        self.virtual_address
    }

    pub fn physical_address(self) -> (r: u64)
        ensures
            r == self@.physical_address,
    {
        self.physical_address
    }

    pub fn file_bytes(self) -> (r: u64)
        ensures
            r == self@.file_bytes,
    {
        self.file_bytes
    }

    pub fn memory_bytes(self) -> (r: u64)
        ensures
            r == self@.memory_bytes,
    {
        self.memory_bytes
    }

    pub fn executable(self) -> (r: bool)
        ensures
            r == flags_executable(self@.flags),
    {
        self.flags & PF_EXECUTE != 0
    }

    pub fn file_end(self) -> (r: Option<u64>)
        ensures
            r == checked_sum(self@.file_offset, self@.file_bytes),
    {
        self.file_offset.checked_add(self.file_bytes)
    }

    pub fn virtual_end(self) -> (r: Option<u64>)
        ensures
            r == checked_sum(self@.virtual_address, self@.memory_bytes),
    {
        self.virtual_address.checked_add(self.memory_bytes)
    }

    pub fn physical_end(self) -> (r: Option<u64>)
        ensures
            r == checked_sum(self@.physical_address, self@.memory_bytes),
    {
        self.physical_address.checked_add(self.memory_bytes)
    }
}

// ---------------------------------------------------------------------------
// Errors.

#[derive(Clone, Copy, Debug, PartialEq, Eq, Structural)]
pub enum ElfError {
    TruncatedHeader,
    Magic,
    UnsupportedEncoding,
    UnsupportedType,
    UnsupportedMachine,
    UnsupportedVersion,
    HeaderSize,
    ProgramHeaderSize,
    ProgramTableOutsideImage,
    NoLoadSegments,
    TooManyLoadSegments,
    SegmentFileRange,
    SegmentSize,
    SegmentAlignment,
    AddressOverflow,
    VirtualOverlap,
    PhysicalOverlap,
    EntryOutsideExecutableSegment,
}

/// The phrase that completes "<artifact> ..." in a rejection message.
pub open spec fn elf_error_reason(e: ElfError) -> Seq<char> {
    match e {
        ElfError::TruncatedHeader => "has a truncated ELF header"@,
        ElfError::Magic => "has an invalid ELF magic"@,
        ElfError::UnsupportedEncoding => "uses an unsupported ELF encoding"@,
        ElfError::UnsupportedType => "is not an ET_EXEC image"@,
        ElfError::UnsupportedMachine => "does not target x86-64"@,
        ElfError::UnsupportedVersion => "uses an unsupported ELF version"@,
        ElfError::HeaderSize => "has an invalid ELF header size"@,
        ElfError::ProgramHeaderSize => "has an invalid program-header size"@,
        ElfError::ProgramTableOutsideImage => "has a program table outside its bytes"@,
        ElfError::NoLoadSegments => "has no loadable segments"@,
        ElfError::TooManyLoadSegments => "has too many loadable segments"@,
        ElfError::SegmentFileRange => "has a segment outside its bytes"@,
        ElfError::SegmentSize => "has an invalid load-segment size"@,
        ElfError::SegmentAlignment => "has an invalid load-segment alignment"@,
        ElfError::AddressOverflow => "has an overflowing load address"@,
        ElfError::VirtualOverlap => "has overlapping virtual load segments"@,
        ElfError::PhysicalOverlap => "has overlapping physical load segments"@,
        ElfError::EntryOutsideExecutableSegment => "has no executable entry segment"@,
    }
}

impl ElfError {
    pub fn reason(self) -> (r: &'static str)
        ensures
            r@ == elf_error_reason(self),
    {
        match self {
            ElfError::TruncatedHeader => "has a truncated ELF header",
            ElfError::Magic => "has an invalid ELF magic",
            ElfError::UnsupportedEncoding => "uses an unsupported ELF encoding",
            ElfError::UnsupportedType => "is not an ET_EXEC image",
            ElfError::UnsupportedMachine => "does not target x86-64",
            ElfError::UnsupportedVersion => "uses an unsupported ELF version",
            ElfError::HeaderSize => "has an invalid ELF header size",
            ElfError::ProgramHeaderSize => "has an invalid program-header size",
            ElfError::ProgramTableOutsideImage => "has a program table outside its bytes",
            ElfError::NoLoadSegments => "has no loadable segments",
            ElfError::TooManyLoadSegments => "has too many loadable segments",
            ElfError::SegmentFileRange => "has a segment outside its bytes",
            ElfError::SegmentSize => "has an invalid load-segment size",
            ElfError::SegmentAlignment => "has an invalid load-segment alignment",
            ElfError::AddressOverflow => "has an overflowing load address",
            ElfError::VirtualOverlap => "has overlapping virtual load segments",
            ElfError::PhysicalOverlap => "has overlapping physical load segments",
            ElfError::EntryOutsideExecutableSegment => "has no executable entry segment",
        }
    }
}

/// The error whose reason is `reason`, told apart by the reason's length and,
/// where lengths coincide, by one distinguishing character.
spec fn elf_error_of_reason(reason: Seq<char>) -> ElfError {
    let n = reason.len();
    if n == 22 {
        ElfError::UnsupportedMachine
    } else if n == 23 {
        ElfError::UnsupportedType
    } else if n == 24 {
        if reason[4] == 'a' { ElfError::Magic } else { ElfError::NoLoadSegments }
    } else if n == 26 {
        ElfError::TruncatedHeader
    } else if n == 30 {
        if reason[4] == 'a' { ElfError::HeaderSize } else { ElfError::TooManyLoadSegments }
    } else if n == 31 {
        if reason[5] == 'a' {
            ElfError::UnsupportedVersion
        } else if reason[5] == ' ' {
            ElfError::SegmentFileRange
        } else if reason[5] == 'n' {
            ElfError::AddressOverflow
        } else {
            ElfError::EntryOutsideExecutableSegment
        }
    } else if n == 32 {
        if reason[0] == 'u' { ElfError::UnsupportedEncoding } else { ElfError::SegmentSize }
    } else if n == 34 {
        ElfError::ProgramHeaderSize
    } else if n == 37 {
        if reason[5] == ' ' {
            ElfError::ProgramTableOutsideImage
        } else if reason[5] == 'n' {
            ElfError::SegmentAlignment
        } else {
            ElfError::VirtualOverlap
        }
    } else {
        ElfError::PhysicalOverlap
    }
}

proof fn lemma_reason_names_its_error(e: ElfError)
    ensures
        elf_error_reason(e).len() > 0,
        elf_error_of_reason(elf_error_reason(e)) == e,
{
    reveal_strlit("has a truncated ELF header");
    reveal_strlit("has an invalid ELF magic");
    reveal_strlit("uses an unsupported ELF encoding");
    reveal_strlit("is not an ET_EXEC image");
    reveal_strlit("does not target x86-64");
    reveal_strlit("uses an unsupported ELF version");
    reveal_strlit("has an invalid ELF header size");
    reveal_strlit("has an invalid program-header size");
    reveal_strlit("has a program table outside its bytes");
    reveal_strlit("has no loadable segments");
    reveal_strlit("has too many loadable segments");
    reveal_strlit("has a segment outside its bytes");
    reveal_strlit("has an invalid load-segment size");
    reveal_strlit("has an invalid load-segment alignment");
    reveal_strlit("has an overflowing load address");
    reveal_strlit("has overlapping virtual load segments");
    reveal_strlit("has overlapping physical load segments");
    reveal_strlit("has no executable entry segment");
}

/// Every ELF rejection has a nonempty reason, and distinct rejections have
/// distinct reasons, so a rejection message names the rule that was broken.
pub proof fn lemma_elf_reasons_distinct(e1: ElfError, e2: ElfError)
    ensures
        elf_error_reason(e1).len() > 0,
        e1 != e2 ==> elf_error_reason(e1) != elf_error_reason(e2),
{
    lemma_reason_names_its_error(e1);
    lemma_reason_names_its_error(e2);
}

// ---------------------------------------------------------------------------
// Readers and per-segment checks.

/// Reads the `n`-byte little-endian number at `offset`.
fn read_le(bytes: &[u8], offset: usize, n: usize) -> (v: u64)
    requires
        n <= 8,
        offset + n <= bytes@.len(),
    ensures
        v == le_at(bytes@, offset as int, n as nat),
{
    proof {
        reveal_with_fuel(pow256, 9);
        assert(pow256(8) == 0x1_0000_0000_0000_0000nat);
    }
    let len = bytes.len();
    let mut v: u64 = 0;
    let mut i: usize = n;
    while i > 0
        invariant
            i <= n <= 8,
            offset + n <= bytes@.len(),
            len == bytes@.len(),
            pow256(8) == 0x1_0000_0000_0000_0000nat,
            v == le_at(bytes@, offset + i, (n - i) as nat),
            v < pow256((n - i) as nat),
        decreases i,
    {
        i = i - 1;
        proof {
            lemma_le_at_step(bytes@, offset + i, (n - i) as nat);
            lemma_pow256_monotone((n - i) as nat, 8);
        }
        v = v * 256 + bytes[offset + i] as u64;
    }
    proof {
        assert(bytes@.subrange(offset as int, offset + 0) =~= Seq::<u8>::empty());
    }
    v
}

fn read_u16(bytes: &[u8], offset: usize) -> (r: Result<u16, ElfError>)
    ensures
        r == (if offset + 2 <= bytes@.len() {
            Ok::<u16, ElfError>(le_at(bytes@, offset as int, 2) as u16)
        } else {
            Err(ElfError::TruncatedHeader)
        }),
        offset + 2 <= bytes@.len() ==> le_at(bytes@, offset as int, 2) <= u16::MAX,
{
    if offset > bytes.len() || bytes.len() - offset < 2 {
        return Err(ElfError::TruncatedHeader);
    }
    let v = read_le(bytes, offset, 2);
    proof {
        lemma_le_value_bound(bytes@.subrange(offset as int, offset + 2));
        reveal_with_fuel(pow256, 3);
    }
    Ok(v as u16)
}

fn read_u32(bytes: &[u8], offset: usize) -> (r: Result<u32, ElfError>)
    ensures
        r == (if offset + 4 <= bytes@.len() {
            Ok::<u32, ElfError>(le_at(bytes@, offset as int, 4) as u32)
        } else {
            Err(ElfError::TruncatedHeader)
        }),
        offset + 4 <= bytes@.len() ==> le_at(bytes@, offset as int, 4) <= u32::MAX,
{
    if offset > bytes.len() || bytes.len() - offset < 4 {
        return Err(ElfError::TruncatedHeader);
    }
    let v = read_le(bytes, offset, 4);
    proof {
        lemma_le_value_bound(bytes@.subrange(offset as int, offset + 4));
        reveal_with_fuel(pow256, 5);
    }
    Ok(v as u32)
}

fn read_u64(bytes: &[u8], offset: usize) -> (r: Result<u64, ElfError>)
    ensures
        r == (if offset + 8 <= bytes@.len() {
            Ok::<u64, ElfError>(le_at(bytes@, offset as int, 8) as u64)
        } else {
            Err(ElfError::TruncatedHeader)
        }),
        offset + 8 <= bytes@.len() ==> le_at(bytes@, offset as int, 8) <= u64::MAX,
{
    if offset > bytes.len() || bytes.len() - offset < 8 {
        return Err(ElfError::TruncatedHeader);
    }
    let v = read_le(bytes, offset, 8);
    Ok(v)
}

proof fn lemma_pow256_monotone(m: nat, n: nat)
    requires
        m <= n,
    ensures
        pow256(m) <= pow256(n),
    decreases n,
{
    if m < n {
        lemma_pow256_monotone(m, (n - 1) as nat);
        crate::bytes::lemma_pow256_positive((n - 1) as nat);
    }
}

fn is_power_of_two(n: u64) -> (r: bool)
    ensures
        r == power_of_two(n as nat),
{
    if n == 0 {
        return false;
    }
    let mut a = n;
    while a > 1 && a % 2 == 0
        invariant
            a > 0,
            power_of_two(n as nat) == power_of_two(a as nat),
        decreases a,
    {
        a = a / 2;
    }
    a == 1
}

fn validate_segment(image_bytes: usize, segment: LoadSegment, alignment: u64) -> (r: Result<
    (),
    ElfError,
>)
    ensures
        r == (match segment_error(image_bytes as int, segment@, alignment) {
            Some(e) => Err(e),
            None => Ok(()),
        }),
{
    if segment.memory_bytes == 0 || segment.file_bytes > segment.memory_bytes {
        return Err(ElfError::SegmentSize);
    }
    if alignment < MINIMUM_SEGMENT_ALIGNMENT || !is_power_of_two(alignment) {
        return Err(ElfError::SegmentAlignment);
    }
    if segment.file_offset % alignment != segment.virtual_address % alignment
        || segment.file_offset % alignment != segment.physical_address % alignment {
        return Err(ElfError::SegmentAlignment);
    }
    let file_end = match segment.file_end() {
        Some(end) => end,
        None => return Err(ElfError::SegmentFileRange),
    };
    if file_end > image_bytes as u64 {
        return Err(ElfError::SegmentFileRange);
    }
    if segment.virtual_end().is_none() || segment.physical_end().is_none() {
        return Err(ElfError::AddressOverflow);
    }
    Ok(())
}

fn ranges_overlap(left_start: u64, left_end: u64, right_start: u64, right_end: u64) -> (r: bool)
    ensures
        r == overlaps(left_start as int, left_end as int, right_start as int, right_end as int),
{
    left_start < right_end && right_start < left_end
}

// ---------------------------------------------------------------------------
// Lemmas on the admission model.

proof fn lemma_overlap_error_none(s: LoadSegmentView, accepted: Seq<LoadSegmentView>)
    ensures
        overlap_error(s, accepted) is None <==> forall|j: int|
            0 <= j < accepted.len() ==> pair_overlap_error(s, #[trigger] accepted[j]) is None,
    decreases accepted.len(),
{
    if accepted.len() > 0 {
        let rest = accepted.drop_last();
        lemma_overlap_error_none(s, rest);
        if overlap_error(s, accepted) is None {
            assert forall|j: int| 0 <= j < accepted.len() implies pair_overlap_error(
                s,
                #[trigger] accepted[j],
            ) is None by {
                if j < accepted.len() - 1 {
                    assert(rest[j] == accepted[j]);
                }
            }
        } else {
            if overlap_error(s, rest) is None {
                assert(pair_overlap_error(s, accepted[accepted.len() - 1]) is Some);
            } else {
                let j = choose|j: int| 0 <= j < rest.len() && pair_overlap_error(s, #[trigger] rest[j]) is Some;
                assert(accepted[j] == rest[j]);
            }
        }
    }
}

/// A power of two is a multiple of every smaller power of two.
proof fn lemma_power_of_two_multiple(n: nat, m: nat)
    requires
        power_of_two(n),
        power_of_two(m),
        m <= n,
    ensures
        n % m == 0,
    decreases n,
{
    if m == 1 {
    } else if n == m {
    } else {
        let half_n = n / 2;
        let half_m = m / 2;
        lemma_power_of_two_multiple(half_n, half_m);
        assert(n % m == 0) by (nonlinear_arith)
            requires
                n == 2 * half_n,
                m == 2 * half_m,
                half_m > 0,
                half_n % half_m == 0,
        {
            assert(half_n == half_m * (half_n / half_m));
            assert(n == m * (half_n / half_m));
        }
    }
}

/// A segment admitted with a power-of-two alignment of at least a page
/// agrees with its addresses modulo the page size.
proof fn lemma_admitted_segment_page_congruent(s: LoadSegmentView, alignment: u64)
    requires
        alignment >= MINIMUM_SEGMENT_ALIGNMENT,
        power_of_two(alignment as nat),
        s.file_offset % alignment == s.virtual_address % alignment,
        s.file_offset % alignment == s.physical_address % alignment,
    ensures
        page_congruent(s),
{
    reveal_with_fuel(power_of_two, 14);
    assert(power_of_two(4096));
    lemma_power_of_two_multiple(alignment as nat, 4096);
    let k = alignment / 4096;
    assert(alignment == 4096 * k);
    vstd::arithmetic::div_mod::lemma_mod_mod(s.file_offset as int, 4096, k as int);
    vstd::arithmetic::div_mod::lemma_mod_mod(s.virtual_address as int, 4096, k as int);
    vstd::arithmetic::div_mod::lemma_mod_mod(s.physical_address as int, 4096, k as int);
}

/// An overlap found in a prefix of the admitted segments is the first one overall.
proof fn lemma_overlap_error_prefix(s: LoadSegmentView, accepted: Seq<LoadSegmentView>, m: int)
    requires
        0 <= m <= accepted.len(),
        overlap_error(s, accepted.take(m)) is Some,
    ensures
        overlap_error(s, accepted) == overlap_error(s, accepted.take(m)),
    decreases accepted.len() - m,
{
    if m < accepted.len() {
        assert(accepted.take(m + 1).drop_last() =~= accepted.take(m));
        lemma_overlap_error_prefix(s, accepted, m + 1);
    } else {
        assert(accepted.take(m) =~= accepted);
    }
}

/// An error met among the first `k` program headers is the error of all of them.
proof fn lemma_scan_error_stays(b: Seq<u8>, k: nat, n: nat)
    requires
        k <= n,
        scan(b, k) is Err,
    ensures
        scan(b, n) == scan(b, k),
    decreases n - k,
{
    if k < n {
        lemma_scan_error_stays(b, k, (n - 1) as nat);
    }
}

/// What every successful partial admission guarantees.
proof fn lemma_scan_facts(b: Seq<u8>, k: nat)
    requires
        scan(b, k) is Ok,
    ensures
        ({
            let (accepted, entry_found) = scan(b, k)->Ok_0;
            &&& accepted.len() <= MAXIMUM_LOAD_SEGMENTS
            &&& segments_disjoint(accepted)
            &&& forall|i: int| 0 <= i < accepted.len() ==> file_end_of(#[trigger] accepted[i]) <= b.len()
            &&& forall|i: int| 0 <= i < accepted.len() ==> page_congruent(#[trigger] accepted[i])
            &&& entry_found <==> exists|i: int|
                0 <= i < accepted.len() && holds_entry(#[trigger] accepted[i], le_at(b, 24, 8) as u64)
        }),
    decreases k,
{
    if k > 0 {
        lemma_scan_facts(b, (k - 1) as nat);
        let (prev, prev_found) = scan(b, (k - 1) as nat)->Ok_0;
        let i = k - 1;
        let entry = le_at(b, 24, 8) as u64;
        if header_type(b, i) == PT_LOAD {
            let s = header_segment(b, i);
            let accepted = prev.push(s);
            lemma_overlap_error_none(s, prev);
            assert(accepted.drop_last() =~= prev);
            assert forall|x: int| 0 <= x < accepted.len() implies segment_sound(#[trigger] accepted[x]) by {
                if x < prev.len() {
                    assert(accepted[x] == prev[x]);
                }
            }
            assert forall|x: int, y: int| 0 <= x < y < accepted.len() implies !overlaps(
                accepted[x].virtual_address as int,
                virtual_end_of(accepted[x]),
                accepted[y].virtual_address as int,
                virtual_end_of(accepted[y]),
            ) && !overlaps(
                accepted[x].physical_address as int,
                physical_end_of(accepted[x]),
                accepted[y].physical_address as int,
                physical_end_of(accepted[y]),
            ) by {
                assert(accepted[x] == prev[x]);
                if y == prev.len() {
                    assert(pair_overlap_error(s, prev[x]) is None);
                } else {
                    assert(accepted[y] == prev[y]);
                }
            }
            assert forall|x: int| 0 <= x < accepted.len() implies file_end_of(#[trigger] accepted[x])
                <= b.len() by {
                if x < prev.len() {
                    assert(accepted[x] == prev[x]);
                }
            }
            lemma_admitted_segment_page_congruent(s, header_alignment(b, i));
            assert forall|x: int| 0 <= x < accepted.len() implies page_congruent(#[trigger] accepted[x]) by {
                if x < prev.len() {
                    assert(accepted[x] == prev[x]);
                }
            }
            let found = prev_found || holds_entry(s, entry);
            if found {
                if prev_found {
                    let w = choose|w: int| 0 <= w < prev.len() && holds_entry(#[trigger] prev[w], entry);
                    assert(accepted[w] == prev[w]);
                    assert(holds_entry(accepted[w], entry));
                } else {
                    assert(holds_entry(accepted[prev.len() as int], entry));
                }
            } else {
                assert forall|w: int| 0 <= w < accepted.len() implies !holds_entry(#[trigger] accepted[w], entry) by {
                    if w < prev.len() {
                        assert(accepted[w] == prev[w]);
                    }
                }
            }
        }
    }
}

// ---------------------------------------------------------------------------
// Which alignments are admitted.

/// A declared alignment that Granite admits for a segment: a power of two
/// from one page (`2^12`) up, at which the segment's file offset, virtual
/// address and physical address agree.
pub open spec fn alignment_admissible(s: LoadSegmentView, alignment: u64) -> bool {
    &&& exists|k: nat| 12 <= k < 64 && alignment as nat == pow2(k)
    &&& s.file_offset % alignment == s.virtual_address % alignment
    &&& s.file_offset % alignment == s.physical_address % alignment
}

proof fn lemma_pow2_is_power_of_two(k: nat)
    ensures
        power_of_two(pow2(k)),
    decreases k,
{
    if k == 0 {
        lemma2_to64();
    } else {
        lemma_pow2_unfold(k);
        lemma_pow2_is_power_of_two((k - 1) as nat);
        lemma_pow2_pos((k - 1) as nat);
        assert(pow2(k) / 2 == pow2((k - 1) as nat));
    }
}

/// Every power-of-two alignment of at least a page at which the offset and
/// both addresses agree is admitted: a segment declaring it is never refused
/// with `SegmentAlignment`, whatever its size (2 MiB alignments included).
pub proof fn lemma_admissible_alignment_never_refused(image_bytes: int, s: LoadSegmentView, alignment: u64)
    requires
        alignment_admissible(s, alignment),
    ensures
        segment_error(image_bytes, s, alignment) != Some(ElfError::SegmentAlignment),
{
    let k = choose|k: nat| 12 <= k < 64 && alignment as nat == pow2(k);
    lemma_pow2_is_power_of_two(k);
    lemma2_to64();
    if k > 12 {
        lemma_pow2_strictly_increases(12, k);
    }
    assert(alignment >= MINIMUM_SEGMENT_ALIGNMENT);
}

proof fn lemma_power_of_two_is_pow2(n: nat)
    requires
        power_of_two(n),
    ensures
        exists|k: nat| n == pow2(k),
    decreases n,
{
    if n == 1 {
        lemma2_to64();
        assert(n == pow2(0));
    } else {
        lemma_power_of_two_is_pow2(n / 2);
        let k = choose|k: nat| n / 2 == pow2(k);
        lemma_pow2_unfold(k + 1);
        assert(n == pow2(k + 1));
    }
}

/// A segment that passes every per-segment rule is nonempty, holds no more
/// file bytes than memory bytes, lies inside the image, has all three ranges
/// inside the address space, and declares an admissible alignment.
pub proof fn lemma_admitted_segment_rules(image_bytes: int, s: LoadSegmentView, alignment: u64)
    requires
        segment_error(image_bytes, s, alignment) is None,
    ensures
        0 < s.memory_bytes,
        s.file_bytes <= s.memory_bytes,
        s.file_offset + s.file_bytes <= image_bytes,
        s.file_offset + s.file_bytes <= u64::MAX,
        s.virtual_address + s.memory_bytes <= u64::MAX,
        s.physical_address + s.memory_bytes <= u64::MAX,
        alignment_admissible(s, alignment),
{
    lemma_power_of_two_is_pow2(alignment as nat);
    let k = choose|k: nat| alignment as nat == pow2(k);
    lemma2_to64();
    if k < 12 {
        lemma_pow2_strictly_increases(k, 12);
    }
    if k >= 64 {
        if k > 64 {
            lemma_pow2_strictly_increases(64, k);
        }
    }
    assert(12 <= k < 64 && alignment as nat == pow2(k));
}

proof fn lemma_overlap_error_is_an_overlap(s: LoadSegmentView, accepted: Seq<LoadSegmentView>)
    ensures
        overlap_error(s, accepted) matches Some(e) ==> e == ElfError::VirtualOverlap || e
            == ElfError::PhysicalOverlap,
    decreases accepted.len(),
{
    if accepted.len() > 0 {
        lemma_overlap_error_is_an_overlap(s, accepted.drop_last());
    }
}

proof fn lemma_scan_alignment_error(b: Seq<u8>, k: nat)
    ensures
        scan(b, k) == Err::<(Seq<LoadSegmentView>, bool), ElfError>(ElfError::SegmentAlignment)
            ==> exists|i: int|
            0 <= i < k && header_type(b, i) == PT_LOAD && segment_error(
                b.len() as int,
                #[trigger] header_segment(b, i),
                header_alignment(b, i),
            ) == Some(ElfError::SegmentAlignment),
    decreases k,
{
    if k > 0 {
        lemma_scan_alignment_error(b, (k - 1) as nat);
        if let Ok((accepted, _)) = scan(b, (k - 1) as nat) {
            lemma_overlap_error_is_an_overlap(header_segment(b, k - 1), accepted);
        }
    }
}

/// Granite refuses an image for its alignment only when some `PT_LOAD`
/// header declares an alignment that is not admissible: not a power of two
/// of at least a page, or one at which the file offset and addresses
/// disagree.
pub proof fn lemma_alignment_refusal_justified(b: Seq<u8>)
    ensures
        parse_layout(b) == Err::<LayoutView, ElfError>(ElfError::SegmentAlignment) ==> exists|i: int|
            0 <= i < le_at(b, 56, 2) && header_type(b, i) == PT_LOAD && !alignment_admissible(
                #[trigger] header_segment(b, i),
                header_alignment(b, i),
            ),
{
    if parse_layout(b) == Err::<LayoutView, ElfError>(ElfError::SegmentAlignment) {
        lemma_scan_alignment_error(b, le_at(b, 56, 2));
        let i = choose|i: int|
            0 <= i < le_at(b, 56, 2) && header_type(b, i) == PT_LOAD && segment_error(
                b.len() as int,
                #[trigger] header_segment(b, i),
                header_alignment(b, i),
            ) == Some(ElfError::SegmentAlignment);
        if alignment_admissible(header_segment(b, i), header_alignment(b, i)) {
            lemma_admissible_alignment_never_refused(b.len() as int, header_segment(b, i), header_alignment(b, i));
        }
    }
}

// ---------------------------------------------------------------------------
// The admitted layout.

/// Fully checked placement evidence for one executable image.
#[derive(Clone, Copy, Debug, PartialEq, Eq)]
pub struct ExecutableLayout {
    entry: u64,
    segments: [LoadSegment; MAXIMUM_LOAD_SEGMENTS],
    segment_count: usize,
}

/// The views of the first `count` slots of a segment table.
pub open spec fn table_view(table: Seq<LoadSegment>, count: int) -> Seq<LoadSegmentView> {
    table.take(count).map_values(|s: LoadSegment| s@)
}

/// The segment whose fields are all zero, which fills unused table slots.
pub open spec fn empty_segment_view() -> LoadSegmentView {
    LoadSegmentView {
        file_offset: 0,
        virtual_address: 0,
        physical_address: 0,
        file_bytes: 0,
        memory_bytes: 0,
        flags: 0,
    }
}

/// Every slot of a segment table from `count` on holds the empty segment.
pub open spec fn unused_slots_empty(table: Seq<LoadSegment>, count: int) -> bool {
    forall|j: int| count <= j < table.len() ==> (#[trigger] table[j])@ == empty_segment_view()
}

impl View for ExecutableLayout {
    type V = LayoutView;

    closed spec fn view(&self) -> LayoutView {
        LayoutView { entry: self.entry, segments: table_view(self.segments@, self.segment_count as int) }
    }
}

impl ExecutableLayout {
    #[verifier::type_invariant]
    closed spec fn well_formed(self) -> bool {
        &&& self.segment_count <= MAXIMUM_LOAD_SEGMENTS
        &&& layout_well_formed(self@)
        &&& unused_slots_empty(self.segments@, self.segment_count as int)
    }

    pub fn entry(self) -> (r: u64)
        ensures
            r == self@.entry,
            layout_well_formed(self@),
    {
        proof {
            use_type_invariant(&self);
        }
        self.entry
    }

    pub fn segments(&self) -> (r: &[LoadSegment])
        ensures
            r@.map_values(|s: LoadSegment| s@) == self@.segments,
            r@.len() == self@.segments.len(),
            layout_well_formed(self@),
    {
        proof {
            use_type_invariant(self);
        }
        let r = vstd::slice::slice_subrange(self.segments.as_slice(), 0, self.segment_count);
        proof {
            assert(r@.map_values(|s: LoadSegment| s@) =~= self@.segments);
        }
        r
    }

    /// Checks whether a physical address lies in an executable segment.
    pub fn contains_executable_physical_address(&self, address: u64) -> (r: bool)
        ensures
            r == executable_physical_hit(self@, address),
    {
        let segments = self.segments();
        let ghost views = self@.segments;
        let mut index: usize = 0;
        while index < segments.len()
            invariant
                index <= segments@.len(),
                views == self@.segments,
                segments@.len() == views.len(),
                segments@.map_values(|s: LoadSegment| s@) == views,
                forall|j: int| 0 <= j < index ==> !segment_holds_physical(#[trigger] views[j], address),
            decreases segments@.len() - index,
        {
            let segment = segments[index];
            assert(views[index as int] == segment@);
            let hit = segment.executable() && address >= segment.physical_address() && match segment.physical_end() {
                Some(end) => address < end,
                None => false,
            };
            if hit {
                assert(segment_holds_physical(self@.segments[index as int], address));
                assert(executable_physical_hit(self@, address));
                return true;
            }
            index = index + 1;
        }
        false
    }
    /// Parses the image without trusting any offset, size, alignment, or
    /// address that the image itself supplies.
    pub fn parse(bytes: &[u8]) -> (r: Result<Self, ElfError>)
        ensures
            match parse_layout(bytes@) {
                Ok(l) => r is Ok && r->Ok_0@ == l,
                Err(e) => r == Err::<ExecutableLayout, ElfError>(e),
            },
            r matches Ok(layout) ==> layout_admitted_from(bytes@, layout@),
    {
        let len = bytes.len();
        if len < ELF_HEADER_BYTES {
            return Err(ElfError::TruncatedHeader);
        }
        if bytes[0] != 0x7f || bytes[1] != 0x45 || bytes[2] != 0x4c || bytes[3] != 0x46 {
            return Err(ElfError::Magic);
        }
        if bytes[4] != 2 || bytes[5] != 1 || bytes[6] != 1 {
            return Err(ElfError::UnsupportedEncoding);
        }
        let elf_type = match read_u16(bytes, 16) {
            Ok(v) => v,
            Err(e) => return Err(e),
        };
        if elf_type != ET_EXEC {
            return Err(ElfError::UnsupportedType);
        }
        let machine = match read_u16(bytes, 18) {
            Ok(v) => v,
            Err(e) => return Err(e),
        };
        if machine != EM_X86_64 {
            return Err(ElfError::UnsupportedMachine);
        }
        let version = match read_u32(bytes, 20) {
            Ok(v) => v,
            Err(e) => return Err(e),
        };
        if version != 1 {
            return Err(ElfError::UnsupportedVersion);
        }
        let header_size = match read_u16(bytes, 52) {
            Ok(v) => v,
            Err(e) => return Err(e),
        };
        if header_size != 64 {
            return Err(ElfError::HeaderSize);
        }
        let program_header_size = match read_u16(bytes, 54) {
            Ok(v) => v,
            Err(e) => return Err(e),
        };
        if program_header_size != 56 {
            return Err(ElfError::ProgramHeaderSize);
        }
        let entry = match read_u64(bytes, 24) {
            Ok(v) => v,
            Err(e) => return Err(e),
        };
        let table_offset = match read_u64(bytes, 32) {
            Ok(v) => v,
            Err(e) => return Err(e),
        };
        if table_offset > usize::MAX as u64 {
            return Err(ElfError::ProgramTableOutsideImage);
        }
        let program_offset = table_offset as usize;
        let program_count = match read_u16(bytes, 56) {
            Ok(v) => v as usize,
            Err(e) => return Err(e),
        };
        if program_count == 0 {
            return Err(ElfError::NoLoadSegments);
        }
        let program_bytes = program_count * PROGRAM_HEADER_BYTES;
        if program_offset > len || len - program_offset < program_bytes {
            return Err(ElfError::ProgramTableOutsideImage);
        }
        let (segments, segment_count, entry_is_executable) = match scan_program_headers(
            bytes,
            entry,
            program_offset,
            program_count,
        ) {
            Ok(scanned) => scanned,
            Err(e) => return Err(e),
        };
        proof {
            lemma_scan_facts(bytes@, program_count as nat);
        }
        if segment_count == 0 {
            return Err(ElfError::NoLoadSegments);
        }
        if !entry_is_executable {
            return Err(ElfError::EntryOutsideExecutableSegment);
        }
        Ok(ExecutableLayout { entry, segments, segment_count })
    }
}

/// Reads the program header at `offset`: the segment it describes and its
/// declared alignment.
fn read_program_header(bytes: &[u8], offset: usize) -> (r: (LoadSegment, u64))
    requires
        offset + PROGRAM_HEADER_BYTES <= bytes@.len(),
    ensures
        r.0@ == segment_at(bytes@, offset as int),
        r.1 == le_at(bytes@, offset + 48, 8) as u64,
{
    let _len = bytes.len();
    let flags = read_le(bytes, offset + 4, 4);
    proof {
        lemma_le_value_bound(bytes@.subrange(offset + 4, offset + 8));
        reveal_with_fuel(pow256, 5);
    }
    let segment = LoadSegment {
        file_offset: read_le(bytes, offset + 8, 8),
        virtual_address: read_le(bytes, offset + 16, 8),
        physical_address: read_le(bytes, offset + 24, 8),
        file_bytes: read_le(bytes, offset + 32, 8),
        memory_bytes: read_le(bytes, offset + 40, 8),
        flags: flags as u32,
    };
    (segment, read_le(bytes, offset + 48, 8))
}

/// Rejects a candidate that overlaps an admitted segment, reporting the
/// first overlap in admission order.
fn check_overlaps(
    segment: LoadSegment,
    table: &[LoadSegment; MAXIMUM_LOAD_SEGMENTS],
    count: usize,
) -> (r: Result<(), ElfError>)
    requires
        count <= MAXIMUM_LOAD_SEGMENTS,
        segment_sound(segment@),
        segments_disjoint(table_view(table@, count as int)),
    ensures
        r == (match overlap_error(segment@, table_view(table@, count as int)) {
            Some(e) => Err(e),
            None => Ok(()),
        }),
{
    let ghost accepted = table_view(table@, count as int);
    let mut previous: usize = 0;
    while previous < count
        invariant
            count <= MAXIMUM_LOAD_SEGMENTS,
            accepted == table_view(table@, count as int),
            segment_sound(segment@),
            segments_disjoint(accepted),
            previous <= count,
            overlap_error(segment@, accepted.take(previous as int)) is None,
        decreases count - previous,
    {
        let other = table[previous];
        assert(accepted[previous as int] == other@);
        assert(segment_sound(accepted[previous as int]));
        assert(accepted.take(previous + 1).drop_last() =~= accepted.take(previous as int));
        let segment_end = segment.virtual_address + segment.memory_bytes;
        let other_end = other.virtual_address + other.memory_bytes;
        if ranges_overlap(segment.virtual_address, segment_end, other.virtual_address, other_end) {
            proof {
                lemma_overlap_error_prefix(segment@, accepted, previous + 1);
            }
            return Err(ElfError::VirtualOverlap);
        }
        let segment_end = segment.physical_address + segment.memory_bytes;
        let other_end = other.physical_address + other.memory_bytes;
        if ranges_overlap(segment.physical_address, segment_end, other.physical_address, other_end) {
            proof {
                lemma_overlap_error_prefix(segment@, accepted, previous + 1);
            }
            return Err(ElfError::PhysicalOverlap);
        }
        previous = previous + 1;
    }
    assert(accepted.take(count as int) =~= accepted);
    Ok(())
}

/// Admits the `PT_LOAD` segments of the program table in header order.
fn scan_program_headers(
    bytes: &[u8],
    entry: u64,
    program_offset: usize,
    program_count: usize,
) -> (r: Result<([LoadSegment; MAXIMUM_LOAD_SEGMENTS], usize, bool), ElfError>)
    requires
        entry == le_at(bytes@, 24, 8),
        program_offset == le_at(bytes@, 32, 8),
        program_offset + PROGRAM_HEADER_BYTES * program_count <= bytes@.len(),
    ensures
        match scan(bytes@, program_count as nat) {
            Ok((accepted, entry_found)) => r is Ok && r->Ok_0.1 <= MAXIMUM_LOAD_SEGMENTS
                && table_view(r->Ok_0.0@, r->Ok_0.1 as int) == accepted && r->Ok_0.2 == entry_found
                && unused_slots_empty(r->Ok_0.0@, r->Ok_0.1 as int),
            Err(e) => r == Err::<([LoadSegment; MAXIMUM_LOAD_SEGMENTS], usize, bool), ElfError>(e),
        },
{
    let empty = LoadSegment {
        file_offset: 0,
        virtual_address: 0,
        physical_address: 0,
        file_bytes: 0,
        memory_bytes: 0,
        flags: 0,
    };
    let len = bytes.len();
    let mut segments = [empty; 16];
    let mut segment_count: usize = 0;
    let mut entry_is_executable = false;
    let mut index: usize = 0;
    assert(table_view(segments@, 0) =~= Seq::<LoadSegmentView>::empty());
    assert(unused_slots_empty(segments@, 0));
    while index < program_count
        invariant
            len == bytes@.len(),
            entry == le_at(bytes@, 24, 8),
            program_offset == le_at(bytes@, 32, 8),
            program_offset + PROGRAM_HEADER_BYTES * program_count <= bytes@.len(),
            index <= program_count,
            segment_count <= MAXIMUM_LOAD_SEGMENTS,
            unused_slots_empty(segments@, segment_count as int),
            scan(bytes@, index as nat) == Ok::<(Seq<LoadSegmentView>, bool), ElfError>(
                (table_view(segments@, segment_count as int), entry_is_executable),
            ),
        decreases program_count - index,
    {
        let offset = program_offset + index * PROGRAM_HEADER_BYTES;
        assert(offset + PROGRAM_HEADER_BYTES <= len) by (nonlinear_arith)
            requires
                offset == program_offset + index * PROGRAM_HEADER_BYTES,
                index < program_count,
                program_offset + PROGRAM_HEADER_BYTES * program_count <= len,
        ;
        assert(header_base(bytes@, index as int) == offset);
        proof {
            lemma_scan_facts(bytes@, index as nat);
        }
        let ghost accepted = table_view(segments@, segment_count as int);
        let kind = read_le(bytes, offset, 4);
        if kind != PT_LOAD as u64 {
            index = index + 1;
            continue;
        }
        if segment_count == MAXIMUM_LOAD_SEGMENTS {
            proof {
                lemma_scan_error_stays(bytes@, (index + 1) as nat, program_count as nat);
            }
            return Err(ElfError::TooManyLoadSegments);
        }
        let (segment, alignment) = read_program_header(bytes, offset);
        match validate_segment(len, segment, alignment) {
            Ok(()) => {},
            Err(e) => {
                proof {
                    lemma_scan_error_stays(bytes@, (index + 1) as nat, program_count as nat);
                }
                return Err(e);
            },
        }
        match check_overlaps(segment, &segments, segment_count) {
            Ok(()) => {},
            Err(e) => {
                proof {
                    lemma_scan_error_stays(bytes@, (index + 1) as nat, program_count as nat);
                }
                return Err(e);
            },
        }
        if segment.executable() && entry >= segment.virtual_address && entry
            < segment.virtual_address + segment.memory_bytes {
            entry_is_executable = true;
        }
        segments[segment_count] = segment;
        assert(table_view(segments@, segment_count + 1) =~= accepted.push(segment@));
        segment_count = segment_count + 1;
        index = index + 1;
    }
    Ok((segments, segment_count, entry_is_executable))
}

} // verus!
