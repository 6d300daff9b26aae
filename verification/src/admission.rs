//! Admission of the boot bundle: decoding the build-bound digest manifest,
//! bounding and reading artifacts, and admitting each one by ELF layout and
//! SHA-256 measurement before Granite commits to firmware exit.

use vstd::prelude::*;
use crate::elf::{ElfError, ExecutableLayout, layout_admitted_from, parse_layout, elf_error_reason};
use crate::measurement::{
    MeasurementError,
    SHA256_BYTES,
    boot_root,
    boot_root_material,
    boot_root_with_services,
    services_root_material,
    sha256_digest,
    verify,
};
use crate::bytes::zeros;
use vstd::string::StringSliceAdditionalSpecFns;

verus! {

/// The largest artifact Granite reads from the boot volume.
pub const MAXIMUM_ARTIFACT_BYTES: usize = 32 * 1024 * 1024;

/// The bytes Granite asks the firmware for in one read.
pub const READ_CHUNK_BYTES: usize = 1024 * 1024;

// ---------------------------------------------------------------------------
// The digest manifest.

/// A lowercase hexadecimal digit.
pub open spec fn is_hex_digit(c: u8) -> bool {
    (0x30 <= c <= 0x39) || (0x61 <= c <= 0x66)
}

/// The value of a lowercase hexadecimal digit.
pub open spec fn hex_value(c: u8) -> nat {
    if c <= 0x39 {
        (c - 0x30) as nat
    } else {
        (c - 0x61 + 10) as nat
    }
}

/// The lowercase hexadecimal digit of `n < 16`.
pub open spec fn hex_digit(n: nat) -> u8 {
    if n < 10 {
        (0x30 + n) as u8
    } else {
        (0x61 + n - 10) as u8
    }
}

/// A manifest entry: 64 lowercase hexadecimal digits.
pub open spec fn is_sha256_hex_spec(encoded: Seq<u8>) -> bool {
    encoded.len() == 2 * SHA256_BYTES && forall|i: int| 0 <= i < encoded.len() ==> is_hex_digit(#[trigger] encoded[i])
}

/// The digest a manifest entry spells, two digits per byte, high digit first.
pub open spec fn decode_sha256_hex(encoded: Seq<u8>) -> Seq<u8> {
    Seq::new(
        SHA256_BYTES as nat,
        |i: int| (hex_value(encoded[2 * i]) * 16 + hex_value(encoded[2 * i + 1])) as u8,
    )
}

/// The manifest entry of a digest, as the build writes it.
pub open spec fn encode_sha256_hex(digest: Seq<u8>) -> Seq<u8> {
    Seq::new(
        2 * digest.len(),
        |i: int| if i % 2 == 0 {
            hex_digit((digest[i / 2] / 16) as nat)
        } else {
            hex_digit((digest[i / 2] % 16) as nat)
        },
    )
}

pub fn hex_nibble(value: u8) -> (r: u8)
    requires
        is_hex_digit(value),
    ensures
        r == hex_value(value),
        r < 16,
{
    if value <= 0x39 {
        value - 0x30
    } else {
        value - 0x61 + 10
    }
}

/// Whether `encoded` is a well-formed manifest entry.
pub fn is_sha256_hex(encoded: &[u8]) -> (r: bool)
    ensures
        r == is_sha256_hex_spec(encoded@),
{
    if encoded.len() != 2 * SHA256_BYTES {
        return false;
    }
    let mut index: usize = 0;
    while index < encoded.len()
        invariant
            index <= encoded@.len(),
            forall|j: int| 0 <= j < index ==> is_hex_digit(#[trigger] encoded@[j]),
        decreases encoded@.len() - index,
    {
        let c = encoded[index];
        if !((0x30 <= c && c <= 0x39) || (0x61 <= c && c <= 0x66)) {
            return false;
        }
        index = index + 1;
    }
    true
}

/// Decodes a build-bound manifest entry into its digest.
pub fn parse_sha256(encoded: &str) -> (r: [u8; SHA256_BYTES])
    requires
        is_sha256_hex_spec(encoded.spec_bytes()),
    ensures
        r@ == decode_sha256_hex(encoded.spec_bytes()),
{
    let bytes = encoded.as_bytes();
    let mut digest = [0u8; 32];
    let mut index: usize = 0;
    while index < SHA256_BYTES
        invariant
            index <= SHA256_BYTES,
            is_sha256_hex_spec(bytes@),
            forall|j: int| 0 <= j < index ==> #[trigger] digest@[j] == decode_sha256_hex(bytes@)[j],
        decreases SHA256_BYTES - index,
    {
        let high = hex_nibble(bytes[index * 2]);
        let low = hex_nibble(bytes[index * 2 + 1]);
        digest[index] = high * 16 + low;
        index = index + 1;
    }
    assert(digest@ =~= decode_sha256_hex(bytes@));
    digest
}

fn hex_digit_of(n: u8) -> (r: u8)
    requires
        n < 16,
    ensures
        r == hex_digit(n as nat),
{
    if n < 10 {
        0x30 + n
    } else {
        0x61 + n - 10
    }
}

/// Encodes a digest as the 64 lowercase hexadecimal digits of its manifest
/// entry.
pub fn encode_sha256(digest: [u8; SHA256_BYTES]) -> (r: Vec<u8>)
    ensures
        r@ == encode_sha256_hex(digest@),
{
    let mut encoded: Vec<u8> = Vec::new();
    let mut index: usize = 0;
    while index < SHA256_BYTES
        invariant
            index <= SHA256_BYTES,
            encoded@.len() == 2 * index,
            forall|j: int| 0 <= j < 2 * index ==> #[trigger] encoded@[j] == encode_sha256_hex(digest@)[j],
        decreases SHA256_BYTES - index,
    {
        let byte = digest[index];
        encoded.push(hex_digit_of(byte / 16));
        encoded.push(hex_digit_of(byte % 16));
        index = index + 1;
    }
    assert(encoded@ =~= encode_sha256_hex(digest@));
    encoded
}

/// A manifest entry written by the build decodes to the digest it was
/// written from, and is well formed.
pub proof fn lemma_manifest_roundtrip(digest: Seq<u8>)
    requires
        digest.len() == SHA256_BYTES,
    ensures
        is_sha256_hex_spec(encode_sha256_hex(digest)),
        decode_sha256_hex(encode_sha256_hex(digest)) == digest,
{
    let e = encode_sha256_hex(digest);
    assert forall|i: int| 0 <= i < e.len() implies is_hex_digit(#[trigger] e[i]) by {
        if i % 2 == 0 {
            assert(digest[i / 2] / 16 < 16);
        }
    }
    assert forall|i: int| 0 <= i < SHA256_BYTES implies #[trigger] decode_sha256_hex(e)[i] == digest[i] by {
        assert((2 * i) / 2 == i && (2 * i) % 2 == 0);
        assert((2 * i + 1) / 2 == i && (2 * i + 1) % 2 == 1);
        assert(hex_value(e[2 * i]) == digest[i] / 16);
        assert(hex_value(e[2 * i + 1]) == digest[i] % 16);
    }
    assert(decode_sha256_hex(e) =~= digest);
}

// ---------------------------------------------------------------------------
// Artifacts.

#[derive(Clone, Copy, Debug, PartialEq, Eq, Structural)]
pub enum ArtifactError {
    InvalidPath,
    Read,
    Empty,
    Oversized(usize),
    Elf(ElfError),
    ManifestMissing,
    DigestMismatch,
}

/// The phrase that completes "<artifact> ..." in a rejection message.
pub open spec fn artifact_error_reason(e: ArtifactError) -> Seq<char> {
    match e {
        ArtifactError::InvalidPath => "path encoding rejected"@,
        ArtifactError::Read => "read failed"@,
        ArtifactError::Empty => "is empty"@,
        ArtifactError::Oversized(_) => "exceeds the fixed bound"@,
        ArtifactError::Elf(error) => elf_error_reason(error),
        ArtifactError::ManifestMissing => "has no build-bound measurement manifest"@,
        ArtifactError::DigestMismatch => "does not match its build-bound SHA-256"@,
    }
}

impl ArtifactError {
    pub fn reason(&self) -> (r: &'static str)
        ensures
            r@ == artifact_error_reason(*self),
    {
        match self {
            ArtifactError::InvalidPath => "path encoding rejected",
            ArtifactError::Read => "read failed",
            ArtifactError::Empty => "is empty",
            ArtifactError::Oversized(_) => "exceeds the fixed bound",
            ArtifactError::Elf(error) => error.reason(),
            ArtifactError::ManifestMissing => "has no build-bound measurement manifest",
            ArtifactError::DigestMismatch => "does not match its build-bound SHA-256",
        }
    }

    /// The size that an oversized artifact reported, zero otherwise.
    pub fn size(&self) -> (r: usize)
        ensures
            r == (match *self {
                ArtifactError::Oversized(size) => size,
                _ => 0,
            }),
    {
        match self {
            ArtifactError::Oversized(size) => *size,
            _ => 0,
        }
    }
}

#[derive(Clone, Copy, Debug, PartialEq, Eq, Structural)]
pub enum PreflightError {
    BootVolume,
    Arach(ArtifactError),
    Push(ArtifactError),
    Crest(ArtifactError),
    CosmicDbus(ArtifactError),
    CosmicCompositor(ArtifactError),
    CosmicGreeter(ArtifactError),
    CosmicSession(ArtifactError),
    CosmicPortal(ArtifactError),
    HermesGspRm(ArtifactError),
    HermesSec2Bootloader(ArtifactError),
    HermesGspBootloader(ArtifactError),
    HermesBooterLoad(ArtifactError),
    HermesBooterUnload(ArtifactError),
}

/// The artifact a preflight error names, and the artifact error, if any.
pub open spec fn preflight_parts(e: PreflightError) -> (Seq<char>, Option<ArtifactError>) {
    match e {
        PreflightError::BootVolume => ("boot volume"@, None),
        PreflightError::Arach(a) => ("Arach"@, Some(a)),
        PreflightError::Push(a) => ("Push"@, Some(a)),
        PreflightError::Crest(a) => ("Crest"@, Some(a)),
        PreflightError::CosmicDbus(a) => ("COSMIC dbus-broker"@, Some(a)),
        PreflightError::CosmicCompositor(a) => ("COSMIC compositor"@, Some(a)),
        PreflightError::CosmicGreeter(a) => ("COSMIC greeter"@, Some(a)),
        PreflightError::CosmicSession(a) => ("COSMIC session"@, Some(a)),
        PreflightError::CosmicPortal(a) => ("COSMIC portal"@, Some(a)),
        PreflightError::HermesGspRm(a) => ("Hermes GSP-RM"@, Some(a)),
        PreflightError::HermesSec2Bootloader(a) => ("Hermes SEC2 bootloader"@, Some(a)),
        PreflightError::HermesGspBootloader(a) => ("Hermes GSP bootloader"@, Some(a)),
        PreflightError::HermesBooterLoad(a) => ("Hermes Booter Load"@, Some(a)),
        PreflightError::HermesBooterUnload(a) => ("Hermes Booter Unload"@, Some(a)),
    }
}

impl PreflightError {
    /// The artifact, the reason and the reported size of a rejection.
    pub fn describe(&self) -> (r: (&'static str, &'static str, usize))
        ensures
            r.0@ == preflight_parts(*self).0,
            match preflight_parts(*self).1 {
                Some(a) => r.1@ == artifact_error_reason(a) && r.2 == (match a {
                    ArtifactError::Oversized(size) => size,
                    _ => 0,
                }),
                None => r.1@ == "unavailable"@ && r.2 == 0,
            },
    {
        match self {
            PreflightError::BootVolume => ("boot volume", "unavailable", 0),
            PreflightError::Arach(error) => ("Arach", error.reason(), error.size()),
            PreflightError::Push(error) => ("Push", error.reason(), error.size()),
            PreflightError::Crest(error) => ("Crest", error.reason(), error.size()),
            PreflightError::CosmicDbus(error) => ("COSMIC dbus-broker", error.reason(), error.size()),
            PreflightError::CosmicCompositor(error) => ("COSMIC compositor", error.reason(), error.size()),
            PreflightError::CosmicGreeter(error) => ("COSMIC greeter", error.reason(), error.size()),
            PreflightError::CosmicSession(error) => ("COSMIC session", error.reason(), error.size()),
            PreflightError::CosmicPortal(error) => ("COSMIC portal", error.reason(), error.size()),
            PreflightError::HermesGspRm(error) => ("Hermes GSP-RM", error.reason(), error.size()),
            PreflightError::HermesSec2Bootloader(error) => (
                "Hermes SEC2 bootloader",
                error.reason(),
                error.size(),
            ),
            PreflightError::HermesGspBootloader(error) => (
                "Hermes GSP bootloader",
                error.reason(),
                error.size(),
            ),
            PreflightError::HermesBooterLoad(error) => ("Hermes Booter Load", error.reason(), error.size()),
            PreflightError::HermesBooterUnload(error) => (
                "Hermes Booter Unload",
                error.reason(),
                error.size(),
            ),
        }
    }
}

/// Bounds an artifact by the size its file reports: the byte count to
/// read, or why the artifact is refused before any read.
pub fn artifact_length(file_size: u64) -> (r: Result<usize, ArtifactError>)
    ensures
        r == (if file_size > usize::MAX {
            Err(ArtifactError::Oversized(usize::MAX))
        } else if file_size == 0 {
            Err(ArtifactError::Empty)
        } else if file_size > MAXIMUM_ARTIFACT_BYTES {
            Err(ArtifactError::Oversized(file_size as usize))
        } else {
            Ok::<usize, ArtifactError>(file_size as usize)
        }),
{
    if file_size > usize::MAX as u64 {
        return Err(ArtifactError::Oversized(usize::MAX));
    }
    let length = file_size as usize;
    if length == 0 {
        return Err(ArtifactError::Empty);
    }
    if length > MAXIMUM_ARTIFACT_BYTES {
        return Err(ArtifactError::Oversized(length));
    }
    Ok(length)
}

/// The end of the next chunk to read: one chunk past `offset`, clipped to
/// the artifact's length.
pub fn read_chunk_end(offset: usize, length: usize) -> (r: usize)
    ensures
        r == (if offset + READ_CHUNK_BYTES > usize::MAX {
            if usize::MAX < length { usize::MAX } else { length }
        } else if offset + READ_CHUNK_BYTES < length {
            (offset + READ_CHUNK_BYTES) as usize
        } else {
            length
        }),
{
    let end = offset.saturating_add(READ_CHUNK_BYTES);
    if end < length {
        end
    } else {
        length
    }
}

/// Accounts for one firmware read of `read` bytes at `offset`: the next
/// offset, or `Read` when the firmware made no progress or overran.
pub fn advance_read(offset: usize, read: usize, length: usize) -> (r: Result<usize, ArtifactError>)
    ensures
        r == (if read == 0 || offset + read > usize::MAX || offset + read > length {
            Err(ArtifactError::Read)
        } else {
            Ok::<usize, ArtifactError>((offset + read) as usize)
        }),
{
    if read == 0 {
        return Err(ArtifactError::Read);
    }
    let next = match offset.checked_add(read) {
        Some(next) => next,
        None => return Err(ArtifactError::Read),
    };
    if next > length {
        return Err(ArtifactError::Read);
    }
    Ok(next)
}

/// What measured admission makes of an artifact's bytes.
pub open spec fn measurement_outcome(bytes: Seq<u8>, expected: Seq<u8>) -> Result<Seq<u8>, ArtifactError> {
    if expected == zeros(SHA256_BYTES as nat) {
        Err(ArtifactError::ManifestMissing)
    } else if sha256_digest(bytes) != expected {
        Err(ArtifactError::DigestMismatch)
    } else {
        Ok(expected)
    }
}

fn measure(bytes: &[u8], expected: [u8; SHA256_BYTES]) -> (r: Result<[u8; SHA256_BYTES], ArtifactError>)
    ensures
        match measurement_outcome(bytes@, expected@) {
            Ok(d) => r matches Ok(digest) && digest@ == d,
            Err(e) => r == Err::<[u8; SHA256_BYTES], ArtifactError>(e),
        },
{
    match verify(bytes, expected) {
        Ok(digest) => Ok(digest),
        Err(MeasurementError::ManifestMissing) => Err(ArtifactError::ManifestMissing),
        Err(MeasurementError::DigestMismatch) => Err(ArtifactError::DigestMismatch),
    }
}

/// Admits an executable artifact: its bounded ELF load plan first, then its
/// measurement against the build-bound digest. The plan kept with the bytes
/// is the one placement uses; nothing parses them a second time.
pub fn admit_executable(bytes: &[u8], expected: [u8; SHA256_BYTES]) -> (r: Result<
    (ExecutableLayout, [u8; SHA256_BYTES]),
    ArtifactError,
>)
    ensures
        match parse_layout(bytes@) {
            Err(e) => r == Err::<(ExecutableLayout, [u8; SHA256_BYTES]), ArtifactError>(ArtifactError::Elf(e)),
            Ok(l) => match measurement_outcome(bytes@, expected@) {
                Ok(d) => r matches Ok((layout, digest)) && layout@ == l && digest@ == d,
                Err(e) => r == Err::<(ExecutableLayout, [u8; SHA256_BYTES]), ArtifactError>(e),
            },
        },
        r matches Ok((layout, digest)) ==> {
            &&& expected@ != zeros(SHA256_BYTES as nat)
            &&& sha256_digest(bytes@) == expected@
            &&& digest@ == expected@
            &&& layout_admitted_from(bytes@, layout@)
        },
{
    let layout = match ExecutableLayout::parse(bytes) {
        Ok(layout) => layout,
        Err(e) => return Err(ArtifactError::Elf(e)),
    };
    let digest = match measure(bytes, expected) {
        Ok(digest) => digest,
        Err(e) => return Err(e),
    };
    Ok((layout, digest))
}

/// Admits a non-executable artifact by its measurement alone.
pub fn admit_raw_artifact(bytes: &[u8], expected: [u8; SHA256_BYTES]) -> (r: Result<
    [u8; SHA256_BYTES],
    ArtifactError,
>)
    ensures
        match measurement_outcome(bytes@, expected@) {
            Ok(d) => r matches Ok(digest) && digest@ == d,
            Err(e) => r == Err::<[u8; SHA256_BYTES], ArtifactError>(e),
        },
        r matches Ok(digest) ==> {
            &&& expected@ != zeros(SHA256_BYTES as nat)
            &&& sha256_digest(bytes@) == expected@
            &&& digest@ == expected@
        },
{
    measure(bytes, expected)
}

/// The measurement root of the bundle: the three-artifact root, extended
/// with the five service digests when the desktop services are selected.
pub fn bundle_root(
    arach: [u8; SHA256_BYTES],
    push: [u8; SHA256_BYTES],
    crest: [u8; SHA256_BYTES],
    services: Option<[[u8; SHA256_BYTES]; 5]>,
) -> (r: [u8; SHA256_BYTES])
    ensures
        r@ == sha256_digest(
            match services {
                Some(s) => services_root_material(arach, push, crest, s),
                None => boot_root_material(arach, push, crest),
            },
        ),
{
    match services {
        Some(s) => boot_root_with_services(arach, push, crest, s),
        None => boot_root(arach, push, crest),
    }
}

} // verus!
