//! [BooleanVector] for the bit-vector `BitVec` of the crate `bit-vec`.
use bit_vec::BitVec;
use vstd::prelude::*;

use super::{falses, or_seq, resized, xor_seq, BooleanVector};

verus! {

#[verifier::external_type_specification]
#[verifier::external_body]
#[verifier::reject_recursive_types(B)]
pub struct ExBitVec<B>(bit_vec::BitVec<B>);

/// The bits that a `BitVec` holds, in order.
pub uninterp spec fn bit_vec_bits(v: BitVec) -> Seq<bool>;

/// The bits of the bytes, each byte most significant bit first.
pub open spec fn bits_of_bytes(bytes: Seq<u8>) -> Seq<bool> {
    Seq::new(bytes.len() * 8, |i: int| (bytes[i / 8] >> ((7 - i % 8) as u8)) & 1 == 1)
}

/// `BitVec::new`: an empty vector.
#[verifier::external_body]
pub(crate) fn bv_new() -> (r: BitVec)
    ensures
        bit_vec_bits(r) == Seq::<bool>::empty(),
{
    BitVec::new()
}

/// `BitVec::from_bytes`: the bits of the bytes, each byte most significant bit first;
/// the number of bits must fit in `usize`.
#[verifier::external_body]
pub(crate) fn bv_from_bytes(bytes: &[u8]) -> (r: BitVec)
    requires
        bytes@.len() * 8 <= usize::MAX,
    ensures
        bit_vec_bits(r) == bits_of_bytes(bytes@),
{
    BitVec::from_bytes(bytes)
}

/// `BitVec::push`: append a bit; the length must stay in `usize`.
#[verifier::external_body]
pub(crate) fn bv_push(v: &mut BitVec, elem: bool)
    requires
        bit_vec_bits(*old(v)).len() < usize::MAX,
    ensures
        bit_vec_bits(*final(v)) == bit_vec_bits(*old(v)).push(elem),
{
    v.push(elem)
}

/// `BitVec::pop`: remove and return the last bit, [None] if there is none.
#[verifier::external_body]
pub(crate) fn bv_pop(v: &mut BitVec) -> (r: Option<bool>)
    ensures
        bit_vec_bits(*old(v)).len() == 0 ==> r is None && bit_vec_bits(*final(v)) == bit_vec_bits(
            *old(v),
        ),
        bit_vec_bits(*old(v)).len() > 0 ==> r == Some(bit_vec_bits(*old(v)).last())
            && bit_vec_bits(*final(v)) == bit_vec_bits(*old(v)).drop_last(),
{
    v.pop()
}

/// `BitVec::set`: set the bit at `i`, which must be in bounds.
#[verifier::external_body]
pub(crate) fn bv_set(v: &mut BitVec, i: usize, x: bool)
    requires
        i < bit_vec_bits(*old(v)).len(),
    ensures
        bit_vec_bits(*final(v)) == bit_vec_bits(*old(v)).update(i as int, x),
{
    v.set(i, x)
}

/// `BitVec::get`: the bit at `i`, [None] if out of bounds.
#[verifier::external_body]
pub(crate) fn bv_get(v: &BitVec, i: usize) -> (r: Option<bool>)
    ensures
        i < bit_vec_bits(*v).len() ==> r == Some(bit_vec_bits(*v)[i as int]),
        i >= bit_vec_bits(*v).len() ==> r is None,
{
    v.get(i)
}

/// `BitVec::len`: the number of bits.
#[verifier::external_body]
pub(crate) fn bv_len(v: &BitVec) -> (r: usize)
    ensures
        r == bit_vec_bits(*v).len(),
{
    v.len()
}

/// `BitVec::xor`: XOR `other` onto `v` bitwise; both must have the same length. The
/// result tells whether `v` changed.
#[verifier::external_body]
pub(crate) fn bv_xor(v: &mut BitVec, other: &BitVec) -> (r: bool)
    requires
        bit_vec_bits(*old(v)).len() == bit_vec_bits(*other).len(),
    ensures
        bit_vec_bits(*final(v)) == xor_seq(bit_vec_bits(*old(v)), bit_vec_bits(*other)),
        r == (bit_vec_bits(*final(v)) != bit_vec_bits(*old(v))),
{
    v.xor(other)
}

/// `BitVec::or`: OR `other` onto `v` bitwise; both must have the same length. The
/// result tells whether `v` changed.
#[verifier::external_body]
pub(crate) fn bv_or(v: &mut BitVec, other: &BitVec) -> (r: bool)
    requires
        bit_vec_bits(*old(v)).len() == bit_vec_bits(*other).len(),
    ensures
        bit_vec_bits(*final(v)) == or_seq(bit_vec_bits(*old(v)), bit_vec_bits(*other)),
        r == (bit_vec_bits(*final(v)) != bit_vec_bits(*old(v))),
{
    v.or(other)
}

/// `BitVec::grow`: append `n` copies of `value`; the length must stay in `usize`.
#[verifier::external_body]
pub(crate) fn bv_grow(v: &mut BitVec, n: usize, value: bool)
    requires
        bit_vec_bits(*old(v)).len() + n <= usize::MAX,
    ensures
        bit_vec_bits(*final(v)) == bit_vec_bits(*old(v)) + Seq::new(n as nat, |_i: int| value),
{
    v.grow(n, value)
}

/// `BitVec::truncate`: keep the first `len` bits (all of them if there are fewer).
#[verifier::external_body]
pub(crate) fn bv_truncate(v: &mut BitVec, len: usize)
    ensures
        len < bit_vec_bits(*old(v)).len() ==> bit_vec_bits(*final(v)) == bit_vec_bits(
            *old(v),
        ).take(len as int),
        len >= bit_vec_bits(*old(v)).len() ==> bit_vec_bits(*final(v)) == bit_vec_bits(*old(v)),
{
    v.truncate(len)
}

/// `BitVec::clear`: set every bit to false; the length stays.
#[verifier::external_body]
pub(crate) fn bv_clear(v: &mut BitVec)
    ensures
        bit_vec_bits(*final(v)) == falses(bit_vec_bits(*old(v)).len()),
{
    v.clear()
}

/// `BitVec::clone`: a copy with the same bits.
#[verifier::external_body]
pub(crate) fn bv_clone(v: &BitVec) -> (r: BitVec)
    ensures
        bit_vec_bits(r) == bit_vec_bits(*v),
{
    v.clone()
}

proof fn lemma_zero_bytes(bytes: Seq<u8>)
    requires
        forall|i: int| 0 <= i < bytes.len() ==> bytes[i] == 0,
    ensures
        bits_of_bytes(bytes) == falses(bytes.len() * 8),
{
    assert forall|i: int| 0 <= i < bytes.len() * 8 implies #[trigger] bits_of_bytes(bytes)[i] == false by {
        let b = bytes[i / 8];
        assert(0 <= i / 8 < bytes.len()) by (nonlinear_arith)
            requires
                0 <= i < bytes.len() * 8,
        ;
        assert(b == 0);
        let k = (7 - i % 8) as u8;
        assert((0u8 >> k) & 1 == 0) by (bit_vector);
    }
    assert(bits_of_bytes(bytes) =~= falses(bytes.len() * 8));
}

/// A vector of `len` false bits: whole zero bytes first, then single bits.
pub(crate) fn bv_zeros(len: usize) -> (r: BitVec)
    ensures
        bit_vec_bits(r) == falses(len as nat),
{
    let rest = len % 8;
    let bytes = (len - rest) / 8;
    let mut zero_bytes: Vec<u8> = Vec::new();
    let mut i: usize = 0;
    while i < bytes
        invariant
            i <= bytes,
            zero_bytes@.len() == i,
            forall|k: int| 0 <= k < i ==> zero_bytes@[k] == 0,
        decreases bytes - i,
    {
        zero_bytes.push(0);
        i += 1;
    }
    assert(bytes * 8 + rest == len) by (nonlinear_arith)
        requires
            rest == len % 8,
            bytes == (len - rest) / 8,
    ;
    proof {
        lemma_zero_bytes(zero_bytes@);
    }
    let mut ret = bv_from_bytes(zero_bytes.as_slice());
    let mut j: usize = 0;
    while j < rest
        invariant
            j <= rest,
            bytes * 8 + rest == len,
            bit_vec_bits(ret) == falses((bytes * 8 + j) as nat),
        decreases rest - j,
    {
        bv_push(&mut ret, false);
        proof {
            assert(falses((bytes * 8 + j) as nat).push(false) =~= falses((bytes * 8 + j + 1) as nat));
        }
        j += 1;
    }
    ret
}

impl BooleanVector for BitVec {
    open spec fn bools(&self) -> Seq<bool> {
        bit_vec_bits(*self)
    }

    fn new() -> (r: Self) {
        bv_new()
    }

    fn zeros(len: usize) -> (r: Self) {
        bv_zeros(len)
    }

    fn set(&mut self, idx: usize, flag: bool) {
        bv_set(self, idx, flag);
    }

    fn xor_inplace(&mut self, rhs: &Self) {
        let _ = bv_xor(self, rhs);
    }

    fn or_inplace(&mut self, rhs: &Self) {
        let _ = bv_or(self, rhs);
    }

    fn resize(&mut self, len: usize, flag: bool) {
        let current_len = bv_len(self);
        if current_len < len {
            bv_grow(self, len - current_len, flag);
        } else if current_len > len {
            bv_truncate(self, len);
        }
        proof {
            if current_len > len {
                assert(bit_vec_bits(*old(self)).take(len as int) =~= bit_vec_bits(*old(self)).subrange(
                    0,
                    len as int,
                ));
            } else if current_len == len {
                assert(bit_vec_bits(*old(self)).subrange(0, len as int) =~= bit_vec_bits(*old(self)));
            }
        }
    }

    fn push(&mut self, flag: bool) {
        bv_push(self, flag);
    }

    fn pop(&mut self) -> (r: Option<bool>) {
        bv_pop(self)
    }

    fn len(&self) -> (r: usize) {
        bv_len(self)
    }

    fn get(&self, idx: usize) -> (r: bool) {
        match bv_get(self, idx) {
            Some(b) => b,
            None => false,
        }
    }
}

} // verus!
