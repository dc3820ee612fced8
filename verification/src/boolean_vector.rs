//! A common interface over storage types of boolean values, e.g., `Vec<bool>` or
//! bit-vectors, which are used as the two halves of a [PauliStack](crate::pauli::PauliStack).
//!
//! Depending on the context, true/false are also called 1/0.
use vstd::prelude::*;

pub mod bitvec_simd;
pub mod packed;
pub mod std_vec;

verus! {

/// `len` many `false` values.
pub open spec fn falses(len: nat) -> Seq<bool> {
    Seq::new(len, |_i: int| false)
}

/// Elementwise XOR of two sequences of the same length.
pub open spec fn xor_seq(a: Seq<bool>, b: Seq<bool>) -> Seq<bool> {
    Seq::new(a.len(), |i: int| a[i] != b[i])
}

/// Elementwise OR of two sequences of the same length.
pub open spec fn or_seq(a: Seq<bool>, b: Seq<bool>) -> Seq<bool> {
    Seq::new(a.len(), |i: int| a[i] || b[i])
}

/// The sequence cut to `len` elements, or extended with `flag`s up to `len` elements.
pub open spec fn resized(s: Seq<bool>, len: nat, flag: bool) -> Seq<bool> {
    if len <= s.len() {
        s.subrange(0, len as int)
    } else {
        s + Seq::new((len - s.len()) as nat, |_i: int| flag)
    }
}

/// The number of positions `i < n` where both `s[i]` and `filter[i]` are true.
pub open spec fn filtered_count(s: Seq<bool>, filter: Seq<bool>, n: nat) -> nat
    decreases n,
{
    if n == 0 {
        0
    } else {
        filtered_count(s, filter, (n - 1) as nat) + (if s[n - 1] && filter[n - 1] {
            1nat
        } else {
            0nat
        })
    }
}

/// The sum modulo 2 of the elements of `s` that are selected by `filter`.
pub open spec fn filtered_parity(s: Seq<bool>, filter: Seq<bool>) -> nat {
    filtered_count(s, filter, s.len()) % 2
}

/// XOR-ing the same sequence twice gives back the original one.
pub proof fn lemma_xor_twice(a: Seq<bool>, b: Seq<bool>)
    requires
        a.len() == b.len(),
    ensures
        xor_seq(xor_seq(a, b), b) == a,
{
    assert(xor_seq(xor_seq(a, b), b) =~= a);
}

/// Resizing to the current length changes nothing; resizing up and back down gives back
/// the original sequence.
pub proof fn lemma_resize_back(s: Seq<bool>, len: nat, flag: bool)
    requires
        len >= s.len(),
    ensures
        resized(s, s.len(), flag) == s,
        resized(resized(s, len, flag), s.len(), flag) == s,
{
    assert(resized(s, s.len(), flag) =~= s);
    assert(resized(resized(s, len, flag), s.len(), flag) =~= s);
}

/// The interface that storage types of boolean values provide.
pub trait BooleanVector: Sized {
    /// The stored values, in order.
    spec fn bools(&self) -> Seq<bool>;

    /// Create a new empty boolean vector.
    fn new() -> (r: Self)
        ensures
            r.bools() == Seq::<bool>::empty(),
    ;

    /// Create a vector with `len` many `false` elements.
    fn zeros(len: usize) -> (r: Self)
        ensures
            r.bools() == falses(len as nat),
    ;

    /// Set the element at `idx` to `flag`.
    fn set(&mut self, idx: usize, flag: bool)
        requires
            idx < old(self).bools().len(),
        ensures
            final(self).bools() == old(self).bools().update(idx as int, flag),
    ;

    /// XOR `rhs` onto `self` elementwise; both must have the same length.
    fn xor_inplace(&mut self, rhs: &Self)
        requires
            old(self).bools().len() == rhs.bools().len(),
        ensures
            final(self).bools() == xor_seq(old(self).bools(), rhs.bools()),
    ;

    /// OR `rhs` onto `self` elementwise; both must have the same length.
    fn or_inplace(&mut self, rhs: &Self)
        requires
            old(self).bools().len() == rhs.bools().len(),
        ensures
            final(self).bools() == or_seq(old(self).bools(), rhs.bools()),
    ;

    /// Resize the vector to `len` elements, where new elements are `flag`.
    fn resize(&mut self, len: usize, flag: bool)
        ensures
            final(self).bools() == resized(old(self).bools(), len as nat, flag),
    ;

    /// Push a new element onto the vector, whose length must stay in `usize`.
    fn push(&mut self, flag: bool)
        requires
            old(self).bools().len() < usize::MAX,
        ensures
            final(self).bools() == old(self).bools().push(flag),
    ;

    /// Pop the last element and return it; [None] if the vector is empty.
    fn pop(&mut self) -> (r: Option<bool>)
        ensures
            old(self).bools().len() == 0 ==> r is None && final(self).bools() == old(self).bools(),
            old(self).bools().len() > 0 ==> r == Some(old(self).bools().last())
                && final(self).bools() == old(self).bools().drop_last(),
    ;

    /// The number of stored elements.
    fn len(&self) -> (r: usize)
        ensures
            r == self.bools().len(),
    ;

    /// The element at `idx`.
    fn get(&self, idx: usize) -> (r: bool)
        requires
            idx < self.bools().len(),
        ensures
            r == self.bools()[idx as int],
    ;

    /// Whether the vector is empty.
    fn is_empty(&self) -> (r: bool)
        ensures
            r == (self.bools().len() == 0),
    {
        self.len() == 0
    }

    /// Sum up modulo 2 the elements `e` for which `filter[i]` is true, where `i` is the
    /// index of `e`. The filter must cover every element.
    fn sum_up(&self, filter: &[bool]) -> (r: u8)
        requires
            filter@.len() >= self.bools().len(),
        ensures
            r as nat == filtered_parity(self.bools(), filter@),
    {
        let len = self.len();
        let mut parity: u8 = 0;
        let mut i: usize = 0;
        while i < len
            invariant
                len == self.bools().len(),
                filter@.len() >= len,
                i <= len,
                parity as nat == filtered_count(self.bools(), filter@, i as nat) % 2,
            decreases len - i,
        {
            if filter[i] && self.get(i) {
                parity = 1 - parity;
            }
            i += 1;
        }
        parity
    }
}

} // verus!
