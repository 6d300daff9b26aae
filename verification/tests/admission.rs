use granite::admission::{
    admit_executable, admit_raw_artifact, advance_read, artifact_length, bundle_root,
    encode_sha256, hex_nibble, is_sha256_hex, parse_sha256, read_chunk_end, ArtifactError,
    PreflightError, MAXIMUM_ARTIFACT_BYTES, READ_CHUNK_BYTES,
};
use granite::elf::ElfError;
use granite::measurement::{boot_root, boot_root_with_services, sha256};

#[test]
fn manifest_entries_round_trip() {
    let digest = sha256(b"arach");
    let encoded = encode_sha256(digest);
    assert_eq!(encoded.len(), 64);
    assert!(is_sha256_hex(&encoded));
    assert_eq!(parse_sha256(std::str::from_utf8(&encoded).unwrap()), digest);
    let text = "ba7816bf8f01cfea414140de5dae2223b00361a396177a9cb410ff61f20015ad";
    assert!(is_sha256_hex(text.as_bytes()));
    assert_eq!(parse_sha256(text), sha256(b"abc"));
    assert_eq!(encode_sha256(sha256(b"abc")), text.as_bytes().to_vec());
}

#[test]
fn rejects_malformed_manifest_entries() {
    let text = b"ba7816bf8f01cfea414140de5dae2223b00361a396177a9cb410ff61f20015ad";
    assert!(!is_sha256_hex(&text[..63]));
    let mut upper = text.to_vec();
    upper[0] = b'B';
    assert!(!is_sha256_hex(&upper));
    let mut other = text.to_vec();
    other[10] = b'g';
    assert!(!is_sha256_hex(&other));
    assert_eq!(hex_nibble(b'0'), 0);
    assert_eq!(hex_nibble(b'9'), 9);
    assert_eq!(hex_nibble(b'a'), 10);
    assert_eq!(hex_nibble(b'f'), 15);
}

#[test]
fn bounds_artifact_lengths() {
    assert_eq!(artifact_length(0), Err(ArtifactError::Empty));
    assert_eq!(artifact_length(1), Ok(1));
    assert_eq!(artifact_length(MAXIMUM_ARTIFACT_BYTES as u64), Ok(MAXIMUM_ARTIFACT_BYTES));
    assert_eq!(
        artifact_length(MAXIMUM_ARTIFACT_BYTES as u64 + 1),
        Err(ArtifactError::Oversized(MAXIMUM_ARTIFACT_BYTES + 1))
    );
}

#[test]
fn reads_in_bounded_chunks() {
    assert_eq!(read_chunk_end(0, 10), 10);
    assert_eq!(read_chunk_end(0, 3 * READ_CHUNK_BYTES), READ_CHUNK_BYTES);
    assert_eq!(read_chunk_end(usize::MAX - 1, usize::MAX), usize::MAX);
    assert_eq!(advance_read(0, 0, 10), Err(ArtifactError::Read));
    assert_eq!(advance_read(0, 4, 10), Ok(4));
    assert_eq!(advance_read(8, 4, 10), Err(ArtifactError::Read));
    assert_eq!(advance_read(usize::MAX, 1, usize::MAX), Err(ArtifactError::Read));
}

#[test]
fn admits_artifacts_by_layout_then_measurement() {
    let bytes = b"not an executable";
    assert_eq!(
        admit_executable(bytes, sha256(bytes)).err(),
        Some(ArtifactError::Elf(ElfError::TruncatedHeader))
    );
    assert_eq!(admit_raw_artifact(bytes, sha256(bytes)), Ok(sha256(bytes)));
    assert_eq!(admit_raw_artifact(bytes, [0; 32]), Err(ArtifactError::ManifestMissing));
    assert_eq!(
        admit_raw_artifact(bytes, sha256(b"other")),
        Err(ArtifactError::DigestMismatch)
    );
}

#[test]
fn describes_rejections() {
    assert_eq!(PreflightError::BootVolume.describe(), ("boot volume", "unavailable", 0));
    assert_eq!(
        PreflightError::Push(ArtifactError::Oversized(7)).describe(),
        ("Push", "exceeds the fixed bound", 7)
    );
    assert_eq!(
        PreflightError::HermesBooterUnload(ArtifactError::Elf(ElfError::Magic)).describe(),
        ("Hermes Booter Unload", "has an invalid ELF magic", 0)
    );
    assert_eq!(ArtifactError::DigestMismatch.reason(), "does not match its build-bound SHA-256");
    assert_eq!(ArtifactError::Read.size(), 0);
}

#[test]
fn selects_the_bundle_root() {
    let arach = sha256(b"arach");
    let push = sha256(b"push");
    let crest = sha256(b"crest");
    let services = [[1u8; 32], [2; 32], [3; 32], [4; 32], [5; 32]];
    assert_eq!(bundle_root(arach, push, crest, None), boot_root(arach, push, crest));
    assert_eq!(
        bundle_root(arach, push, crest, Some(services)),
        boot_root_with_services(arach, push, crest, services)
    );
}
