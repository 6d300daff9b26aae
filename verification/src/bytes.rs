//! Little-endian byte encodings shared by the ELF reader and the handoff
//! writer.

use vstd::prelude::*;

verus! {

/// `256` raised to the power `n`.
pub open spec fn pow256(n: nat) -> nat
    decreases n,
{
    if n == 0 {
        1
    } else {
        256 * pow256((n - 1) as nat)
    }
}

/// The number a little-endian byte sequence denotes.
pub open spec fn le_value(s: Seq<u8>) -> nat
    decreases s.len(),
{
    if s.len() == 0 {
        0
    } else {
        s[0] as nat + 256 * le_value(s.drop_first())
    }
}

/// The number stored little-endian in the `n` bytes of `b` that start at `offset`.
pub open spec fn le_at(b: Seq<u8>, offset: int, n: nat) -> nat {
    le_value(b.subrange(offset, offset + n))
}

/// The `n`-byte little-endian encoding of `v` (of `v` modulo `256^n`).
pub open spec fn le_bytes(v: nat, n: nat) -> Seq<u8>
    decreases n,
{
    if n == 0 {
        seq![]
    } else {
        seq![(v % 256) as u8] + le_bytes(v / 256, (n - 1) as nat)
    }
}

/// `n` zero bytes.
pub open spec fn zeros(n: nat) -> Seq<u8> {
    Seq::new(n, |i: int| 0u8)
}

pub proof fn lemma_pow256_positive(n: nat)
    ensures
        pow256(n) >= 1,
    decreases n,
{
    if n > 0 {
        lemma_pow256_positive((n - 1) as nat);
    }
}

pub broadcast proof fn lemma_le_bytes_len(v: nat, n: nat)
    ensures
        #[trigger] le_bytes(v, n).len() == n,
    decreases n,
{
    if n > 0 {
        lemma_le_bytes_len(v / 256, (n - 1) as nat);
    }
}

/// A byte sequence of length `n` denotes a number below `256^n`.
pub proof fn lemma_le_value_bound(s: Seq<u8>)
    ensures
        le_value(s) < pow256(s.len()),
    decreases s.len(),
{
    if s.len() > 0 {
        lemma_le_value_bound(s.drop_first());
        assert(pow256(s.len()) == 256 * pow256((s.len() - 1) as nat));
    }
}

/// Reading back an encoding gives the encoded number, when it fits.
pub proof fn lemma_le_value_of_bytes(v: nat, n: nat)
    requires
        v < pow256(n),
    ensures
        le_value(le_bytes(v, n)) == v,
        le_bytes(v, n).len() == n,
    decreases n,
{
    lemma_le_bytes_len(v, n);
    if n > 0 {
        let rest = le_bytes(v / 256, (n - 1) as nat);
        assert(le_bytes(v, n).drop_first() =~= rest);
        assert(v / 256 < pow256((n - 1) as nat));
        lemma_le_value_of_bytes(v / 256, (n - 1) as nat);
    }
}

/// One step of reading: the first byte, then the rest scaled by 256.
pub proof fn lemma_le_at_step(b: Seq<u8>, offset: int, n: nat)
    requires
        n > 0,
        0 <= offset,
        offset + n <= b.len(),
    ensures
        le_at(b, offset, n) == b[offset] as nat + 256 * le_at(b, offset + 1, (n - 1) as nat),
{
    assert(b.subrange(offset, offset + n).drop_first() =~= b.subrange(offset + 1, offset + n));
}

} // verus!
