# Granite

Granite is the measured UEFI bootloader for ArachOS. It admits only bounded
ELF load plans whose Arach, Push and Crest bytes match independently supplied
SHA-256 manifests, then constructs the exact Multiboot2-shaped handoff that the
Arach kernel consumes.

The crate is a Verus library with an unverified UEFI program around it.

- `src/` is the verified library; every function in it carries a contract
  that Verus proves.
  - `elf.rs`: bounded ELF64 admission. `ExecutableLayout::parse` returns
    exactly the layout the model `parse_layout` describes, or the first
    rule the image breaks.
  - `measurement.rs`: SHA-256 measurement (through the `sha2` crate),
    manifest verification and the ordered boot roots.
  - `admission.rs`: the digest manifest, artifact bounds and reads, and
    measured admission of executables and raw firmware.
  - `handoff.rs`: the Boulder layout check and the Multiboot2 record
    writer, specified byte for byte.
  - `placement.rs`: page counts, the deferred higher-half BSS, early-map
    placement, the loading of Arach segments, the module table, the
    firmware memory map, the framebuffer mode and the ACPI root pointer.
  - `bytes.rs`: little-endian numbers over byte sequences.
- `app/` is the UEFI program: it reads the boot volume, allocates pages,
  copies artifacts, exits boot services and transfers control, taking every
  decision from the library. The readiness score, which is computed in
  floating point, also lives there.
- `tests/` runs the library on concrete inputs.
