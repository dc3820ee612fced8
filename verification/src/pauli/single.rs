//! A single Pauli operator, encoded into the two lowest bits of a `u8`.
use vstd::prelude::*;

use crate::bits::{
    encode, lemma_and_or_bits, lemma_encode, lemma_hadamard_bits, lemma_phase_bits,
    lemma_read_bits, lemma_set_bits, lemma_shift_masks, lemma_xor_bits, x_of, z_of,
};
use super::{conj_h, conj_s, encoding};

verus! {

/// The X bit of a flag: 2 if set, 0 otherwise.
fn left(flag: bool) -> (r: u8)
    ensures
        r == (if flag { 2u8 } else { 0u8 }),
{
    if flag { 2 } else { 0 }
}

/// The Z bit of a flag: 1 if set, 0 otherwise.
fn right(flag: bool) -> (r: u8)
    ensures
        r == (if flag { 1u8 } else { 0u8 }),
{
    if flag { 1 } else { 0 }
}

/// Pauli encoding into two bits, basically a "u2": 0 <-> I, 1 <-> Z, 2 <-> X, 3 <-> Y.
///
/// The Pauli is the product of X and Z (Y = XZ up to a phase). The stored value is
/// always between 0 and 3, inclusive.
#[derive(Clone, Copy, PartialEq, Eq, Structural, PartialOrd, Ord, Hash, Debug)]
pub struct Pauli {
    storage: u8,
}

impl Pauli {
    #[verifier::type_invariant]
    spec fn valid(self) -> bool {
        self.storage < 4
    }

    /// The encoded value.
    pub closed spec fn code(self) -> u8 {
        self.storage
    }

    /// Whether the Pauli contains X.
    pub open spec fn has_x(self) -> bool {
        x_of(self.code())
    }

    /// Whether the Pauli contains Z.
    pub open spec fn has_z(self) -> bool {
        z_of(self.code())
    }

    /// The X and Z components.
    pub open spec fn components(self) -> (bool, bool) {
        (self.has_x(), self.has_z())
    }

    /// Create the Pauli (X if `x`)(Z if `z`).
    pub fn new(x: bool, z: bool) -> (r: Self)
        ensures
            r.code() == encode(x, z),
            r.has_x() == x,
            r.has_z() == z,
    {
        let l = left(x);
        let r = right(z);
        proof {
            lemma_xor_bits();
            assert(l ^ r == encode(x, z)) by {
                assert(l < 4 && r < 4);
                lemma_encode(x, z);
                crate::bits::lemma_bits_determine(l ^ r, encode(x, z));
            }
        }
        Self { storage: l ^ r }
    }

    /// Create the identity.
    pub fn new_i() -> (r: Self)
        ensures
            r.code() == encoding::I,
            !r.has_x() && !r.has_z(),
    {
        Self { storage: encoding::I }
    }

    /// Create a Pauli X.
    pub fn new_x() -> (r: Self)
        ensures
            r.code() == encoding::X,
            r.has_x() && !r.has_z(),
    {
        Self { storage: encoding::X }
    }

    /// Create a Pauli Y.
    pub fn new_y() -> (r: Self)
        ensures
            r.code() == encoding::Y,
            r.has_x() && r.has_z(),
    {
        Self { storage: encoding::Y }
    }

    /// Create a Pauli Z.
    pub fn new_z() -> (r: Self)
        ensures
            r.code() == encoding::Z,
            !r.has_x() && r.has_z(),
    {
        Self { storage: encoding::Z }
    }


    /// Get the underlying encoded value.
    pub fn storage(&self) -> (r: u8)
        ensures
            r == self.code(),
            r < 4,
    {
        proof {
            use_type_invariant(self);
        }
        self.storage
    }

    /// Directly specify the underlying encoded value, which must be at most 3.
    pub fn set_storage(&mut self, storage: u8)
        requires
            storage <= 3,
        ensures
            final(self).code() == storage,
    {
        self.storage = storage;
    }

    /// Set whether the Pauli product contains X.
    pub fn set_x(&mut self, x: bool)
        ensures
            final(self).has_x() == x,
            final(self).has_z() == old(self).has_z(),
    {
        proof {
            use_type_invariant(&*self);
            lemma_set_bits();
        }
        let l = left(x);
        let mut s = self.storage;
        s &= l | 1;
        s |= l;
        self.storage = s;
    }

    /// Set whether the Pauli product contains Z.
    pub fn set_z(&mut self, z: bool)
        ensures
            final(self).has_x() == old(self).has_x(),
            final(self).has_z() == z,
    {
        proof {
            use_type_invariant(&*self);
            lemma_set_bits();
        }
        let r = right(z);
        let mut s = self.storage;
        s &= r | 2;
        s |= r;
        self.storage = s;
    }

    /// Whether the Pauli product contains X.
    pub fn get_x(&self) -> (r: bool)
        ensures
            r == self.has_x(),
    {
        proof {
            use_type_invariant(self);
            lemma_read_bits();
        }
        self.storage & 2 != 0
    }

    /// Whether the Pauli product contains Z.
    pub fn get_z(&self) -> (r: bool)
        ensures
            r == self.has_z(),
    {
        proof {
            use_type_invariant(self);
            lemma_read_bits();
        }
        self.storage & 1 != 0
    }

    /// Conjugate the Pauli with the Hadamard gate, ignoring phases: X and Z swap.
    pub fn h(&mut self)
        ensures
            final(self).components() == conj_h(old(self).components()),
    {
        proof {
            use_type_invariant(&*self);
            lemma_hadamard_bits();
        }
        let mut s = self.storage;
        s ^= (s & 1) << 1;
        s ^= (s & 2) >> 1;
        s ^= (s & 1) << 1;
        self.storage = s;
    }

    /// Conjugate the Pauli with the S gate, ignoring phases: X becomes Y.
    pub fn s(&mut self)
        ensures
            final(self).components() == conj_s(old(self).components()),
    {
        proof {
            use_type_invariant(&*self);
            lemma_phase_bits();
        }
        let mut s = self.storage;
        s ^= (s & 2) >> 1;
        self.storage = s;
    }

    /// The X mask of the encoded value: 2 if the Pauli contains X, 0 otherwise.
    pub fn xmask(&self) -> (r: u8)
        ensures
            r == (if self.has_x() { 2u8 } else { 0u8 }),
    {
        proof {
            use_type_invariant(self);
            lemma_read_bits();
        }
        self.storage & 2
    }

    /// The Z mask of the encoded value: 1 if the Pauli contains Z, 0 otherwise.
    pub fn zmask(&self) -> (r: u8)
        ensures
            r == (if self.has_z() { 1u8 } else { 0u8 }),
    {
        proof {
            use_type_invariant(self);
            lemma_read_bits();
        }
        self.storage & 1
    }

    /// XOR the encoded value of `other` onto `self`, i.e., multiply the Paulis,
    /// neglecting phases.
    pub fn xor(&mut self, other: Self)
        ensures
            final(self).code() == old(self).code() ^ other.code(),
            final(self).has_x() == (old(self).has_x() != other.has_x()),
            final(self).has_z() == (old(self).has_z() != other.has_z()),
    {
        proof {
            use_type_invariant(&*self);
            use_type_invariant(&other);
            lemma_xor_bits();
        }
        self.storage = self.storage ^ other.storage;
    }

    /// XOR an encoded value onto `self`. The value must be a valid encoding.
    pub fn xor_u8(&mut self, other: u8)
        requires
            other < 4,
        ensures
            final(self).code() == old(self).code() ^ other,
            final(self).has_x() == (old(self).has_x() != x_of(other)),
            final(self).has_z() == (old(self).has_z() != z_of(other)),
    {
        proof {
            use_type_invariant(&*self);
            lemma_xor_bits();
        }
        self.storage = self.storage ^ other;
    }

    /// The letter of the Pauli: 'I', 'Z', 'X' or 'Y'.
    pub fn to_char(&self) -> (r: char)
        ensures
            r == (if self.code() == 0 { 'I' } else if self.code() == 1 { 'Z' } else if self.code()
                == 2 { 'X' } else { 'Y' }),
    {
        proof {
            use_type_invariant(self);
        }
        match self.storage {
            0 => 'I',
            1 => 'Z',
            2 => 'X',
            _ => 'Y',
        }
    }
}


impl TryFrom<u8> for Pauli {
    type Error = u8;

    fn try_from(value: u8) -> (r: Result<Self, u8>)
        ensures
            value <= 3 ==> (r matches Ok(p) && p.code() == value),
            value > 3 ==> r == Err::<Self, u8>(value),
    {
        if value > 3 {
            Err(value)
        } else {
            Ok(Self { storage: value })
        }
    }
}

impl vstd::std_specs::convert::TryFromSpecImpl<u8> for Pauli {
    open spec fn obeys_try_from_spec() -> bool {
        true
    }

    closed spec fn try_from_spec(v: u8) -> Result<Self, u8> {
        if v > 3 {
            Err(v)
        } else {
            Ok(Pauli { storage: v })
        }
    }
}

impl vstd::std_specs::convert::FromSpecImpl<Pauli> for u8 {
    open spec fn obeys_from_spec() -> bool {
        true
    }

    open spec fn from_spec(v: Pauli) -> u8 {
        v.code()
    }
}

impl From<Pauli> for u8 {
    fn from(value: Pauli) -> (r: u8)
        ensures
            r == value.code(),
    {
        value.storage
    }
}

} // verus!
