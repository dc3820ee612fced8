//! Facts about the two-bit Pauli encoding on `u8`, proved with the bit-vector solver.
use vstd::prelude::*;

verus! {

/// Whether the encoded value has its X bit (the bit of value 2) set.
pub open spec fn x_of(s: u8) -> bool {
    s >= 2
}

/// Whether the encoded value has its Z bit (the bit of value 1) set.
pub open spec fn z_of(s: u8) -> bool {
    s % 2 == 1
}

/// The tableau encoding of the Pauli (X if `x`)(Z if `z`): I = 0, Z = 1, X = 2, Y = 3.
pub open spec fn encode(x: bool, z: bool) -> u8 {
    ((if x { 2int } else { 0int }) + (if z { 1int } else { 0int })) as u8
}

/// Reading the two bits of an encoded value.
pub proof fn lemma_read_bits()
    by (bit_vector)
    ensures
        forall|s: u8|
            #![trigger s & 2]
            s < 4 ==> ((s & 2 != 0) == (s >= 2) && (s & 2 == 0 || s & 2 == 2)),
        forall|s: u8|
            #![trigger s & 1]
            s < 4 ==> ((s & 1 != 0) == (s % 2 == 1) && (s & 1 == 0 || s & 1 == 1)),
{
}

/// The X and Z masks, shifted onto the other bit.
pub proof fn lemma_shift_masks()
    by (bit_vector)
    ensures
        forall|s: u8| #![trigger (s & 1) << 1u8] s < 4 ==> ((s & 1) << 1u8) == (if s % 2 == 1 { 2u8 } else { 0u8 }),
        forall|s: u8| #![trigger (s & 2) >> 1u8] s < 4 ==> ((s & 2) >> 1u8) == (if s >= 2 { 1u8 } else { 0u8 }),
{
}

/// XOR of two encoded values acts on each bit separately and stays encoded.
pub proof fn lemma_xor_bits()
    by (bit_vector)
    ensures
        forall|s: u8, t: u8|
            #![trigger s ^ t]
            s < 4 && t < 4 ==> {
                &&& (s ^ t) < 4
                &&& ((s ^ t) >= 2) == ((s >= 2) != (t >= 2))
                &&& ((s ^ t) % 2 == 1) == ((s % 2 == 1) != (t % 2 == 1))
            },
{
}

/// AND and OR of two encoded values act on each bit separately and stay encoded.
pub proof fn lemma_and_or_bits()
    by (bit_vector)
    ensures
        forall|s: u8, t: u8|
            #![trigger s & t]
            s < 4 && t < 4 ==> {
                &&& (s & t) < 4
                &&& ((s & t) >= 2) == ((s >= 2) && (t >= 2))
                &&& ((s & t) % 2 == 1) == ((s % 2 == 1) && (t % 2 == 1))
            },
        forall|s: u8, t: u8|
            #![trigger s | t]
            s < 4 && t < 4 ==> {
                &&& (s | t) < 4
                &&& ((s | t) >= 2) == ((s >= 2) || (t >= 2))
                &&& ((s | t) % 2 == 1) == ((s % 2 == 1) || (t % 2 == 1))
            },
{
}

/// Shifting a single mask bit onto the other position.
pub proof fn lemma_mask_shifts()
    by (bit_vector)
    ensures
        (2u8 >> 1u8) == 1u8,
        (0u8 >> 1u8) == 0u8,
        (1u8 << 1u8) == 2u8,
        (0u8 << 1u8) == 0u8,
{
}

/// Setting the X bit (`s &= l | 1; s |= l` with `l` the X bit of the flag) and the Z bit
/// (`s &= r | 2; s |= r` with `r` the Z bit of the flag).
pub proof fn lemma_set_bits()
    by (bit_vector)
    ensures
        forall|s: u8, l: u8|
            #![trigger (s & (l | 1)) | l]
            s < 4 && (l == 0 || l == 2) ==> {
                &&& ((s & (l | 1)) | l) < 4
                &&& (((s & (l | 1)) | l) >= 2) == (l == 2)
                &&& (((s & (l | 1)) | l) % 2 == 1) == (s % 2 == 1)
            },
        forall|s: u8, r: u8|
            #![trigger (s & (r | 2)) | r]
            s < 4 && (r == 0 || r == 1) ==> {
                &&& ((s & (r | 2)) | r) < 4
                &&& (((s & (r | 2)) | r) >= 2) == (s >= 2)
                &&& (((s & (r | 2)) | r) % 2 == 1) == (r == 1)
            },
{
}

/// The Hadamard conjugation on the encoding, three XOR steps, swaps the two bits.
pub proof fn lemma_hadamard_bits()
    by (bit_vector)
    ensures
        forall|s: u8|
            #![trigger s ^ ((s & 1) << 1u8)]
            s < 4 ==> {
                let a = s ^ ((s & 1) << 1);
                let b = a ^ ((a & 2) >> 1);
                let c = b ^ ((b & 1) << 1);
                &&& c < 4
                &&& (c >= 2) == (s % 2 == 1)
                &&& (c % 2 == 1) == (s >= 2)
            },
{
}

/// The phase conjugation on the encoding adds the X bit onto the Z bit.
pub proof fn lemma_phase_bits()
    by (bit_vector)
    ensures
        forall|s: u8|
            #![trigger s ^ ((s & 2) >> 1u8)]
            s < 4 ==> {
                let a = s ^ ((s & 2) >> 1);
                &&& a < 4
                &&& (a >= 2) == (s >= 2)
                &&& (a % 2 == 1) == ((s % 2 == 1) != (s >= 2))
            },
{
}

/// An encoded value is determined by its two bits.
pub proof fn lemma_bits_determine(s: u8, t: u8)
    requires
        s < 4,
        t < 4,
        (s >= 2) == (t >= 2),
        (s % 2 == 1) == (t % 2 == 1),
    ensures
        s == t,
{
}

/// The encoding of two bits reads back as those bits.
pub proof fn lemma_encode(x: bool, z: bool)
    ensures
        encode(x, z) < 4,
        x_of(encode(x, z)) == x,
        z_of(encode(x, z)) == z,
{
}

} // verus!
