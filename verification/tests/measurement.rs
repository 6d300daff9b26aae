use granite::measurement::{
    boot_root, boot_root_with_services, constant_time_equal, firmware_bundle_root, sha256, verify,
    MeasurementError, SHA256_BYTES,
};

#[test]
fn verifies_the_exact_artifact_only() {
    let artifact = b"Granite measured artifact";
    let expected = sha256(artifact);
    assert_eq!(verify(artifact, expected), Ok(expected));
    assert_eq!(
        verify(b"Granite altered artifact", expected),
        Err(MeasurementError::DigestMismatch)
    );
}

#[test]
fn refuses_an_unbound_manifest() {
    assert_eq!(
        verify(b"artifact", [0; SHA256_BYTES]),
        Err(MeasurementError::ManifestMissing)
    );
}

#[test]
fn ordered_boot_root_cannot_alias_a_permuted_bundle() {
    let arach = sha256(b"arach");
    let push = sha256(b"push");
    let crest = sha256(b"crest");
    assert_ne!(boot_root(arach, push, crest), boot_root(push, arach, crest));
}

#[test]
fn cosmic_root_changes_when_a_service_changes() {
    let arach = sha256(b"arach");
    let push = sha256(b"push");
    let crest = sha256(b"crest");
    let services = [
        sha256(b"dbus"),
        sha256(b"comp"),
        sha256(b"greeter"),
        sha256(b"session"),
        sha256(b"portal"),
    ];
    let mut changed = services;
    changed[2] = sha256(b"different-greeter");
    assert_ne!(
        boot_root_with_services(arach, push, crest, services),
        boot_root_with_services(arach, push, crest, changed)
    );
}

#[test]
fn sha256_matches_the_standard_test_vector() {
    let digest = sha256(b"abc");
    let expected: [u8; 32] = [
        0xba, 0x78, 0x16, 0xbf, 0x8f, 0x01, 0xcf, 0xea, 0x41, 0x41, 0x40, 0xde, 0x5d, 0xae, 0x22,
        0x23, 0xb0, 0x03, 0x61, 0xa3, 0x96, 0x17, 0x7a, 0x9c, 0xb4, 0x10, 0xff, 0x61, 0xf2, 0x00,
        0x15, 0xad,
    ];
    assert_eq!(digest, expected);
}

#[test]
fn boot_root_hashes_the_ordered_concatenation() {
    let arach = sha256(b"arach");
    let push = sha256(b"push");
    let crest = sha256(b"crest");
    let mut material = Vec::new();
    material.extend_from_slice(&arach);
    material.extend_from_slice(&push);
    material.extend_from_slice(&crest);
    assert_eq!(boot_root(arach, push, crest), sha256(&material));
    let services = [[1u8; 32], [2; 32], [3; 32], [4; 32], [5; 32]];
    for service in services {
        material.extend_from_slice(&service);
    }
    assert_eq!(boot_root_with_services(arach, push, crest, services), sha256(&material));
    let mut firmware = Vec::new();
    for service in services {
        firmware.extend_from_slice(&service);
    }
    assert_eq!(firmware_bundle_root(services), sha256(&firmware));
}

#[test]
fn constant_time_equal_compares_every_byte() {
    let a = [7u8; 32];
    let mut b = a;
    assert!(constant_time_equal(a, b));
    b[31] = 8;
    assert!(!constant_time_equal(a, b));
    b[31] = 7;
    b[0] = 0;
    assert!(!constant_time_equal(a, b));
}
