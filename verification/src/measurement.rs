//! Measured-admission primitives used before Granite commits to firmware
//! exit.

use vstd::prelude::*;
use sha2::{Digest, Sha256};
use crate::bytes::zeros;

verus! {

pub const SHA256_BYTES: usize = 32;

#[derive(Clone, Copy, Debug, PartialEq, Eq, Structural)]
pub enum MeasurementError {
    ManifestMissing,
    DigestMismatch,
}

/// The SHA-256 digest (FIPS 180-4) of `data`.
pub uninterp spec fn sha256_digest(data: Seq<u8>) -> Seq<u8>;

/// Computes an artifact measurement with `sha2::Sha256::digest`.
///
/// Trusted: the result is taken to be `sha256_digest` of the bytes, that is,
/// a function of the bytes alone; nothing here states the SHA-256 algorithm
/// itself. Admission still requires an independent, nonzero expected digest
/// through [`verify`].
#[verifier::external_body]
pub fn sha256(bytes: &[u8]) -> (r: [u8; SHA256_BYTES])
    ensures
        r@ == sha256_digest(bytes@),
{
    Sha256::digest(bytes).into()
}

/// Compares two digests over every byte, independently of the first
/// difference, so the reject path exposes no prefix oracle.
pub fn constant_time_equal(left: [u8; SHA256_BYTES], right: [u8; SHA256_BYTES]) -> (r: bool)
    ensures
        r == (left@ == right@),
{
    let mut difference: u8 = 0;
    let mut index: usize = 0;
    while index < SHA256_BYTES
        invariant
            index <= SHA256_BYTES,
            (difference == 0) == (forall|j: int| 0 <= j < index ==> left@[j] == right@[j]),
        decreases SHA256_BYTES - index,
    {
        let a = left[index];
        let b = right[index];
        let d = difference;
        assert(((d | (a ^ b)) == 0) == (d == 0 && a == b)) by (bit_vector);
        difference = difference | (a ^ b);
        index = index + 1;
    }
    if difference == 0 {
        assert(left@ =~= right@);
    }
    difference == 0
}

/// The digest is the all-zero placeholder of an unbound manifest.
fn all_zero(digest: [u8; SHA256_BYTES]) -> (r: bool)
    ensures
        r == (digest@ == zeros(SHA256_BYTES as nat)),
{
    let mut index: usize = 0;
    while index < SHA256_BYTES
        invariant
            index <= SHA256_BYTES,
            forall|j: int| 0 <= j < index ==> digest@[j] == 0u8,
        decreases SHA256_BYTES - index,
    {
        if digest[index] != 0 {
            assert(digest@[index as int] != zeros(SHA256_BYTES as nat)[index as int]);
            return false;
        }
        index = index + 1;
    }
    assert(digest@ =~= zeros(SHA256_BYTES as nat));
    true
}

/// Computes an artifact digest and requires it to match the build-bound
/// manifest. An all-zero manifest is never a fallback: it is the explicit
/// failure state of an incomplete build.
pub fn verify(bytes: &[u8], expected: [u8; SHA256_BYTES]) -> (r: Result<
    [u8; SHA256_BYTES],
    MeasurementError,
>)
    ensures
        expected@ == zeros(SHA256_BYTES as nat) ==> r == Err::<[u8; SHA256_BYTES], MeasurementError>(
            MeasurementError::ManifestMissing,
        ),
        expected@ != zeros(SHA256_BYTES as nat) && sha256_digest(bytes@) == expected@ ==> (r matches Ok(
            actual,
        ) && actual@ == expected@),
        expected@ != zeros(SHA256_BYTES as nat) && sha256_digest(bytes@) != expected@ ==> r == Err::<
            [u8; SHA256_BYTES],
            MeasurementError,
        >(MeasurementError::DigestMismatch),
{
    if all_zero(expected) {
        return Err(MeasurementError::ManifestMissing);
    }
    let actual = sha256(bytes);
    if !constant_time_equal(actual, expected) {
        return Err(MeasurementError::DigestMismatch);
    }
    Ok(actual)
}

/// The concatenation of digests, in order.
pub open spec fn digest_concat(digests: Seq<[u8; SHA256_BYTES]>) -> Seq<u8>
    decreases digests.len(),
{
    if digests.len() == 0 {
        Seq::empty()
    } else {
        digest_concat(digests.drop_last()) + digests.last()@
    }
}

/// The bytes measured for the ordered Arach, Push and Crest digests.
pub open spec fn boot_root_material(
    arach: [u8; SHA256_BYTES],
    push: [u8; SHA256_BYTES],
    crest: [u8; SHA256_BYTES],
) -> Seq<u8> {
    digest_concat(seq![arach, push, crest])
}

/// The bytes measured for the three boot digests followed by the five
/// service digests, in order.
pub open spec fn services_root_material(
    arach: [u8; SHA256_BYTES],
    push: [u8; SHA256_BYTES],
    crest: [u8; SHA256_BYTES],
    services: [[u8; SHA256_BYTES]; 5],
) -> Seq<u8> {
    digest_concat(seq![arach, push, crest] + services@)
}

proof fn lemma_digest_concat_len(digests: Seq<[u8; SHA256_BYTES]>)
    ensures
        digest_concat(digests).len() == SHA256_BYTES * digests.len(),
    decreases digests.len(),
{
    if digests.len() > 0 {
        lemma_digest_concat_len(digests.drop_last());
    }
}

/// Digest `i` occupies bytes `32 i .. 32 i + 32` of the concatenation.
pub proof fn lemma_digest_concat_at(digests: Seq<[u8; SHA256_BYTES]>, i: int)
    requires
        0 <= i < digests.len(),
    ensures
        digest_concat(digests).len() == SHA256_BYTES * digests.len(),
        digest_concat(digests).subrange(32 * i, 32 * i + 32) == digests[i]@,
    decreases digests.len(),
{
    lemma_digest_concat_len(digests);
    let rest = digests.drop_last();
    lemma_digest_concat_len(rest);
    if i < digests.len() - 1 {
        lemma_digest_concat_at(rest, i);
        assert(digest_concat(digests).subrange(32 * i, 32 * i + 32) =~= digest_concat(rest).subrange(
            32 * i,
            32 * i + 32,
        ));
    } else {
        assert(digest_concat(digests).subrange(32 * i, 32 * i + 32) =~= digests[i]@);
    }
}

/// Copies `digest` into slot `slot` of `material`.
fn place_digest(material: &mut [u8], slot: usize, digest: &[u8; SHA256_BYTES])
    requires
        32 * slot + 32 <= old(material)@.len(),
    ensures
        final(material)@ == old(material)@.take(32 * slot) + digest@ + old(material)@.skip(
            32 * slot + 32,
        ),
{
    let len = material.len();
    let start = slot * SHA256_BYTES;
    let mut index: usize = 0;
    while index < SHA256_BYTES
        invariant
            len == old(material)@.len(),
            start == 32 * slot,
            start + 32 <= old(material)@.len(),
            material@.len() == old(material)@.len(),
            index <= SHA256_BYTES,
            material@ == old(material)@.take(start as int) + digest@.take(index as int) + old(
                material,
            )@.skip(start + index),
        decreases SHA256_BYTES - index,
    {
        material[start + index] = digest[index];
        index = index + 1;
        assert(material@ =~= old(material)@.take(start as int) + digest@.take(index as int) + old(
            material,
        )@.skip(start + index));
    }
    assert(digest@.take(32) =~= digest@);
}

/// Fills `material` with `digests`, in order.
fn fill_material(material: &mut [u8], digests: &[[u8; SHA256_BYTES]])
    requires
        old(material)@.len() == SHA256_BYTES * digests@.len(),
    ensures
        final(material)@ == digest_concat(digests@),
{
    let count = digests.len();
    let mut index: usize = 0;
    while index < count
        invariant
            count == digests@.len(),
            index <= count,
            material@.len() == SHA256_BYTES * count,
            forall|j: int|
                0 <= j < index ==> #[trigger] material@.subrange(32 * j, 32 * j + 32) == digests@[j]@,
        decreases count - index,
    {
        let ghost before = material@;
        assert(32 * index + 32 <= 32 * count) by (nonlinear_arith)
            requires
                index < count,
        ;
        place_digest(material, index, &digests[index]);
        assert forall|j: int| 0 <= j < index + 1 implies #[trigger] material@.subrange(
            32 * j,
            32 * j + 32,
        ) == digests@[j]@ by {
            if j < index {
                assert(32 * j + 32 <= 32 * index) by (nonlinear_arith)
                    requires
                        j < index,
                ;
                assert(material@.subrange(32 * j, 32 * j + 32) =~= before.subrange(32 * j, 32 * j + 32));
            } else {
                assert(material@.subrange(32 * j, 32 * j + 32) =~= digests@[j]@);
            }
        }
        index = index + 1;
    }
    proof {
        lemma_digest_concat_len(digests@);
        assert forall|k: int| 0 <= k < material@.len() implies material@[k] == digest_concat(
            digests@,
        )[k] by {
            let j = k / 32;
            assert(0 <= j < count) by (nonlinear_arith)
                requires
                    0 <= k < 32 * count,
                    j == k / 32,
            ;
            assert(32 * j <= k < 32 * j + 32) by (nonlinear_arith)
                requires
                    j == k / 32,
                    0 <= k,
            ;
            lemma_digest_concat_at(digests@, j);
            assert(material@.subrange(32 * j, 32 * j + 32)[k - 32 * j] == material@[k]);
        }
        assert(material@ =~= digest_concat(digests@));
    }
}

/// Binds the ordered Arach, Push and Crest measurements into one root for
/// the native handoff record. Order is part of the evidence.
pub fn boot_root(
    arach: [u8; SHA256_BYTES],
    push: [u8; SHA256_BYTES],
    crest: [u8; SHA256_BYTES],
) -> (r: [u8; SHA256_BYTES])
    ensures
        r@ == sha256_digest(boot_root_material(arach, push, crest)),
{
    let digests = [arach, push, crest];
    let mut material = [0u8; 96];
    fill_material(&mut material, &digests);
    assert(digests@ =~= seq![arach, push, crest]);
    sha256(&material)
}

/// Extends the ordered boot root with the complete service bundle, so an
/// opted-in desktop handoff depends on every service.
pub fn boot_root_with_services(
    arach: [u8; SHA256_BYTES],
    push: [u8; SHA256_BYTES],
    crest: [u8; SHA256_BYTES],
    services: [[u8; SHA256_BYTES]; 5],
) -> (r: [u8; SHA256_BYTES])
    ensures
        r@ == sha256_digest(services_root_material(arach, push, crest, services)),
{
    let digests = [
        arach,
        push,
        crest,
        services[0],
        services[1],
        services[2],
        services[3],
        services[4],
    ];
    let mut material = [0u8; 256];
    fill_material(&mut material, &digests);
    assert(digests@ =~= seq![arach, push, crest] + services@);
    sha256(&material)
}

/// Binds the ordered raw firmware measurements of the GSP bundle (GSP-RM,
/// SEC2 bootloader, GSP bootloader, Booter load, Booter unload), separately
/// from the executable boot root.
pub fn firmware_bundle_root(digests: [[u8; SHA256_BYTES]; 5]) -> (r: [u8; SHA256_BYTES])
    ensures
        r@ == sha256_digest(digest_concat(digests@)),
{
    let mut material = [0u8; 160];
    fill_material(&mut material, &digests);
    sha256(&material)
}

/// Concatenations of equally many digests are equal exactly when the
/// digests are equal position by position.
pub proof fn lemma_digest_concat_injective(a: Seq<[u8; SHA256_BYTES]>, b: Seq<[u8; SHA256_BYTES]>)
    requires
        a.len() == b.len(),
    ensures
        (digest_concat(a) == digest_concat(b)) <==> (forall|i: int|
            0 <= i < a.len() ==> #[trigger] a[i]@ == b[i]@),
{
    lemma_digest_concat_len(a);
    lemma_digest_concat_len(b);
    if digest_concat(a) == digest_concat(b) {
        assert forall|i: int| 0 <= i < a.len() implies #[trigger] a[i]@ == b[i]@ by {
            lemma_digest_concat_at(a, i);
            lemma_digest_concat_at(b, i);
        }
    }
    if forall|i: int| 0 <= i < a.len() ==> #[trigger] a[i]@ == b[i]@ {
        assert forall|k: int| 0 <= k < digest_concat(a).len() implies digest_concat(a)[k]
            == digest_concat(b)[k] by {
            let j = k / 32;
            assert(0 <= j < a.len() && 32 * j <= k < 32 * j + 32) by (nonlinear_arith)
                requires
                    0 <= k < 32 * a.len(),
                    j == k / 32,
            ;
            lemma_digest_concat_at(a, j);
            lemma_digest_concat_at(b, j);
            assert(a[j]@ == b[j]@);
            assert(digest_concat(a).subrange(32 * j, 32 * j + 32)[k - 32 * j] == digest_concat(a)[k]);
            assert(digest_concat(b).subrange(32 * j, 32 * j + 32)[k - 32 * j] == digest_concat(b)[k]);
        }
        assert(digest_concat(a) =~= digest_concat(b));
    }
}

/// Order is part of the boot evidence: the material that `boot_root`
/// measures is the same for two bundles exactly when their Arach, Push and
/// Crest digests agree position by position, so a permuted bundle of
/// distinct digests is measured from different bytes.
pub proof fn lemma_boot_root_material_ordered(
    arach: [u8; SHA256_BYTES],
    push: [u8; SHA256_BYTES],
    crest: [u8; SHA256_BYTES],
    other_arach: [u8; SHA256_BYTES],
    other_push: [u8; SHA256_BYTES],
    other_crest: [u8; SHA256_BYTES],
)
    ensures
        (boot_root_material(arach, push, crest) == boot_root_material(other_arach, other_push, other_crest))
            <==> (arach@ == other_arach@ && push@ == other_push@ && crest@ == other_crest@),
{
    let a = seq![arach, push, crest];
    let b = seq![other_arach, other_push, other_crest];
    lemma_digest_concat_injective(a, b);
    assert(a[0] == arach && a[1] == push && a[2] == crest);
    assert(b[0] == other_arach && b[1] == other_push && b[2] == other_crest);
}

/// The material that `boot_root_with_services` measures is the same for
/// two bundles exactly when all eight digests agree position by position:
/// changing any single service changes the measured bytes.
pub proof fn lemma_services_root_material_ordered(
    arach: [u8; SHA256_BYTES],
    push: [u8; SHA256_BYTES],
    crest: [u8; SHA256_BYTES],
    services: [[u8; SHA256_BYTES]; 5],
    other_arach: [u8; SHA256_BYTES],
    other_push: [u8; SHA256_BYTES],
    other_crest: [u8; SHA256_BYTES],
    other_services: [[u8; SHA256_BYTES]; 5],
)
    ensures
        (services_root_material(arach, push, crest, services) == services_root_material(
            other_arach,
            other_push,
            other_crest,
            other_services,
        )) <==> (arach@ == other_arach@ && push@ == other_push@ && crest@ == other_crest@
            && forall|i: int| 0 <= i < 5 ==> #[trigger] services@[i]@ == other_services@[i]@),
{
    let a = seq![arach, push, crest] + services@;
    let b = seq![other_arach, other_push, other_crest] + other_services@;
    lemma_digest_concat_injective(a, b);
    assert(a[0] == arach && a[1] == push && a[2] == crest);
    assert(b[0] == other_arach && b[1] == other_push && b[2] == other_crest);
    assert forall|i: int| 0 <= i < 5 implies a[3 + i] == services@[i] && b[3 + i] == other_services@[i] by {}
    if arach@ == other_arach@ && push@ == other_push@ && crest@ == other_crest@ && forall|i: int|
        0 <= i < 5 ==> #[trigger] services@[i]@ == other_services@[i]@ {
        assert forall|i: int| 0 <= i < a.len() implies #[trigger] a[i]@ == b[i]@ by {
            if i >= 3 {
                assert(services@[i - 3]@ == other_services@[i - 3]@);
            }
        }
    }
    if forall|i: int| 0 <= i < a.len() ==> #[trigger] a[i]@ == b[i]@ {
        assert forall|i: int| 0 <= i < 5 implies #[trigger] services@[i]@ == other_services@[i]@ by {
            assert(a[3 + i]@ == b[3 + i]@);
        }
        assert(a[0]@ == b[0]@ && a[1]@ == b[1]@ && a[2]@ == b[2]@);
    }
}

} // verus!
