//! Pauli frames: the Paulis of many frames, stored per qubit in two bit-vectors (the X
//! and the Z components).
use std::collections::HashMap;

use bit_vec::BitVec;
use vstd::prelude::*;

use crate::bits::{encode, lemma_and_or_bits, lemma_read_bits, lemma_xor_bits, x_of, z_of};
use crate::boolean_vector::falses;
use crate::boolean_vector::packed::{
    bit_vec_bits, bv_clear, bv_new, bv_pop, bv_push, bv_xor, bv_zeros,
};

pub mod frames;
pub mod storage;

pub use frames::Frames;

verus! {

broadcast use vstd::std_specs::hash::group_hash_axioms;

/// A Pauli encoded into two bits: the X component in the bit of value 2, the Z component
/// in the bit of value 1. The storage is always below 4.
#[derive(Clone, Copy, PartialEq, Eq, Structural, PartialOrd, Ord, Hash, Debug)]
pub struct Pauli {
    storage: u8,
}

impl Pauli {
    #[verifier::type_invariant]
    spec fn valid(self) -> bool {
        self.storage < 4
    }

    /// The encoded value.
    pub closed spec fn code(self) -> u8 {
        self.storage
    }

    /// The Pauli (X if `x`)(Z if `z`).
    pub fn new(x: bool, z: bool) -> (r: Self)
        ensures
            r.code() == encode(x, z),
    {
        let left: u8 = if x { 2 } else { 0 };
        let right: u8 = if z { 1 } else { 0 };
        proof {
            lemma_xor_bits();
            assert(left ^ right < 4);
            assert(x_of(left ^ right) == x && z_of(left ^ right) == z);
            crate::bits::lemma_encode(x, z);
            crate::bits::lemma_bits_determine(left ^ right, encode(x, z));
        }
        Self { storage: left ^ right }
    }

    /// The encoded value.
    pub fn storage(&self) -> (r: &u8)
        ensures
            *r == self.code(),
            *r < 4,
    {
        proof {
            use_type_invariant(self);
        }
        &self.storage
    }

    /// Flip the X component if `x`.
    pub fn set_x(&mut self, x: bool)
        ensures
            x_of(final(self).code()) == (x_of(old(self).code()) != x),
            z_of(final(self).code()) == z_of(old(self).code()),
    {
        proof {
            use_type_invariant(&*self);
            lemma_xor_bits();
        }
        let mask: u8 = if x { 2 } else { 0 };
        self.storage = self.storage ^ mask;
    }

    /// Flip the Z component if `z`.
    pub fn set_z(&mut self, z: bool)
        ensures
            x_of(final(self).code()) == x_of(old(self).code()),
            z_of(final(self).code()) == (z_of(old(self).code()) != z),
    {
        proof {
            use_type_invariant(&*self);
            lemma_xor_bits();
        }
        let mask: u8 = if z { 1 } else { 0 };
        self.storage = self.storage ^ mask;
    }

    /// Keep the components that both have.
    pub fn and(&mut self, other: &Self)
        ensures
            x_of(final(self).code()) == (x_of(old(self).code()) && x_of(other.code())),
            z_of(final(self).code()) == (z_of(old(self).code()) && z_of(other.code())),
    {
        proof {
            use_type_invariant(&*self);
            use_type_invariant(other);
            lemma_and_or_bits();
        }
        self.storage = self.storage & other.storage;
    }

    /// Keep the components that either has.
    pub fn or(&mut self, other: &Self)
        ensures
            x_of(final(self).code()) == (x_of(old(self).code()) || x_of(other.code())),
            z_of(final(self).code()) == (z_of(old(self).code()) || z_of(other.code())),
    {
        proof {
            use_type_invariant(&*self);
            use_type_invariant(other);
            lemma_and_or_bits();
        }
        self.storage = self.storage | other.storage;
    }

    /// Multiply `other` onto `self`, neglecting phases: the components are added modulo 2.
    pub fn xor(&mut self, other: &Self)
        ensures
            x_of(final(self).code()) == (x_of(old(self).code()) != x_of(other.code())),
            z_of(final(self).code()) == (z_of(old(self).code()) != z_of(other.code())),
    {
        proof {
            use_type_invariant(&*self);
            use_type_invariant(other);
            lemma_xor_bits();
        }
        self.storage = self.storage ^ other.storage;
    }

    /// Whether the Pauli has an X component.
    pub fn x(&self) -> (r: bool)
        ensures
            r == x_of(self.code()),
    {
        proof {
            use_type_invariant(self);
            lemma_read_bits();
        }
        self.storage & 2 != 0
    }

    /// Whether the Pauli has a Z component.
    pub fn z(&self) -> (r: bool)
        ensures
            r == z_of(self.code()),
    {
        proof {
            use_type_invariant(self);
            lemma_read_bits();
        }
        self.storage & 1 != 0
    }
}

impl TryFrom<u8> for Pauli {
    type Error = u8;

    fn try_from(value: u8) -> (r: Result<Self, u8>)
        ensures
            value < 4 ==> (r matches Ok(p) && p.code() == value),
            value >= 4 ==> r == Err::<Self, u8>(value),
    {
        if value > 3 {
            Err(value)
        } else {
            Ok(Self { storage: value })
        }
    }
}

impl vstd::std_specs::convert::TryFromSpecImpl<u8> for Pauli {
    open spec fn obeys_try_from_spec() -> bool {
        true
    }

    closed spec fn try_from_spec(v: u8) -> Result<Self, u8> {
        if v > 3 {
            Err(v)
        } else {
            Ok(Pauli { storage: v })
        }
    }
}

/// One frame: the Paulis of the qubits, each with the index of its qubit.
pub type PauliString = Vec<(usize, Pauli)>;

/// The Paulis of many frames on one qubit: the X components in `left`, the Z components
/// in `right`.
#[derive(Debug, PartialEq, Eq, PartialOrd, Ord)]
pub struct PauliVec {
    /// The X components.
    pub left: BitVec,
    /// The Z components.
    pub right: BitVec,
}

impl PauliVec {
    /// The X components.
    pub open spec fn xs(&self) -> Seq<bool> {
        bit_vec_bits(self.left)
    }

    /// The Z components.
    pub open spec fn zs(&self) -> Seq<bool> {
        bit_vec_bits(self.right)
    }

    /// An empty vector.
    pub fn new() -> (r: Self)
        ensures
            r.xs() == Seq::<bool>::empty(),
            r.zs() == Seq::<bool>::empty(),
    {
        Self { left: bv_new(), right: bv_new() }
    }

    /// `len` identities.
    pub fn zeros(len: usize) -> (r: Self)
        ensures
            r.xs() == falses(len as nat),
            r.zs() == falses(len as nat),
    {
        let zero = zero_bitvec(len);
        Self { left: crate::boolean_vector::packed::bv_clone(&zero), right: zero }
    }

    /// Push the Pauli (X if `x`)(Z if `z`).
    pub fn push(&mut self, x: bool, z: bool)
        requires
            old(self).xs().len() < usize::MAX,
            old(self).zs().len() < usize::MAX,
        ensures
            final(self).xs() == old(self).xs().push(x),
            final(self).zs() == old(self).zs().push(z),
    {
        bv_push(&mut self.left, x);
        bv_push(&mut self.right, z);
    }

    /// Pop the last Pauli: the X component is popped first, then the Z component; if
    /// either is missing, the result is [None] (an X component is popped all the same).
    pub fn pop(&mut self) -> (r: Option<Pauli>)
        ensures
            old(self).xs().len() == 0 ==> r is None && final(self).xs() == old(self).xs()
                && final(self).zs() == old(self).zs(),
            old(self).xs().len() > 0 ==> final(self).xs() == old(self).xs().drop_last(),
            old(self).xs().len() > 0 && old(self).zs().len() == 0 ==> r is None && final(self).zs()
                == old(self).zs(),
            old(self).xs().len() > 0 && old(self).zs().len() > 0 ==> final(self).zs() == old(
                self,
            ).zs().drop_last(),
            old(self).xs().len() > 0 && old(self).zs().len() > 0 ==> (r matches Some(p)
                && p.code() == encode(old(self).xs().last(), old(self).zs().last())),
    {
        let l = match bv_pop(&mut self.left) {
            Some(l) => l,
            None => {
                return None;
            },
        };
        let r = match bv_pop(&mut self.right) {
            Some(r) => r,
            None => {
                return None;
            },
        };
        Some(Pauli::new(l, r))
    }

    /// Reset all Paulis to the identity; the number of frames stays.
    pub fn clear(&mut self)
        ensures
            final(self).xs() == falses(old(self).xs().len()),
            final(self).zs() == falses(old(self).zs().len()),
    {
        bv_clear(&mut self.left);
        bv_clear(&mut self.right);
    }

    /// Apply Pauli X, which does not change the frames.
    pub fn x(&self) {
    }

    /// Apply Pauli Z, which does not change the frames.
    pub fn z(&self) {
    }

    /// Apply Pauli Y, which does not change the frames.
    pub fn y(&self) {
    }

    /// Apply the Hadamard gate: the X and Z components are exchanged.
    pub fn h(&mut self)
        ensures
            final(self).xs() == old(self).zs(),
            final(self).zs() == old(self).xs(),
    {
        std::mem::swap(&mut self.left, &mut self.right);
    }

    /// Apply the S gate: the X components are added onto the Z components; both must
    /// have the same length.
    pub fn s(&mut self)
        requires
            old(self).xs().len() == old(self).zs().len(),
        ensures
            final(self).xs() == old(self).xs(),
            final(self).zs() == crate::boolean_vector::xor_seq(old(self).zs(), old(self).xs()),
    {
        let _ = bv_xor(&mut self.right, &self.left);
    }
}

impl Clone for PauliVec {
    /// A copy with the same components.
    fn clone(&self) -> (r: Self)
        ensures
            r.xs() == self.xs(),
            r.zs() == self.zs(),
    {
        Self {
            left: crate::boolean_vector::packed::bv_clone(&self.left),
            right: crate::boolean_vector::packed::bv_clone(&self.right),
        }
    }
}

impl Default for PauliVec {
    fn default() -> (r: Self)
        ensures
            r.xs() == Seq::<bool>::empty(),
            r.zs() == Seq::<bool>::empty(),
    {
        Self::new()
    }
}

/// `len` false bits.
fn zero_bitvec(len: usize) -> (r: BitVec)
    ensures
        bit_vec_bits(r) == falses(len as nat),
{
    bv_zeros(len)
}

/// Whether the pairs hold exactly the entries of the map, each key once, where `f`
/// gives the value of a pair's second component.
pub open spec fn represents_by<T, V>(pairs: Seq<(usize, T)>, m: Map<usize, V>, f: spec_fn(T) -> V) -> bool {
    &&& m.dom().finite()
    &&& pairs.len() == m.dom().len()
    &&& forall|i: int, j: int| 0 <= i < j < pairs.len() ==> pairs[i].0 != pairs[j].0
    &&& forall|i: int|
        0 <= i < pairs.len() ==> m.contains_key(#[trigger] pairs[i].0) && m[pairs[i].0] == f(
            pairs[i].1,
        )
}

/// Whether the pairs hold exactly the entries of the map, each key once.
pub open spec fn represents(pairs: Seq<(usize, PauliVec)>, m: Map<usize, PauliVec>) -> bool {
    represents_by(pairs, m, |p: PauliVec| p)
}

/// Whether the pairs refer to exactly the entries of the map, each key once.
pub open spec fn represents_refs(pairs: Seq<(usize, &PauliVec)>, m: Map<usize, PauliVec>) -> bool {
    represents_by(pairs, m, |p: &PauliVec| *p)
}

/// Whether the keys of the pairs increase strictly.
pub open spec fn sorted_by_key<T>(pairs: Seq<(usize, T)>) -> bool {
    forall|i: int, j: int| 0 <= i < j < pairs.len() ==> pairs[i].0 < pairs[j].0
}
/// Two sorted lists of pairs that hold exactly the entries of the same map are equal:
/// sorting the entries of a storage has one result.
pub proof fn lemma_sorted_unique<T, V>(a: Seq<(usize, T)>, b: Seq<(usize, T)>, m: Map<usize, V>, f: spec_fn(T) -> V)
    requires
        represents_by(a, m, f),
        represents_by(b, m, f),
        sorted_by_key(a),
        sorted_by_key(b),
        forall|x: T, y: T| #[trigger] f(x) == #[trigger] f(y) ==> x == y,
    ensures
        a == b,
    decreases a.len(),
{
    if a.len() > 0 {
        // the last pair of each holds the largest key of the map
        let ka = a.last().0;
        let kb = b.last().0;
        assert(a[a.len() - 1] == a.last());
        assert(b[b.len() - 1] == b.last());
        assert(m.contains_key(kb));
        assert(m.contains_key(ka));
        lemma_key_listed(a, m, f, kb);
        lemma_key_listed(b, m, f, ka);
        let ia = choose|i: int| 0 <= i < a.len() && a[i].0 == kb;
        let ib = choose|i: int| 0 <= i < b.len() && b[i].0 == ka;
        if ia < a.len() - 1 {
            assert(a[ia].0 < ka);
        }
        if ib < b.len() - 1 {
            assert(b[ib].0 < kb);
        }
        assert(ka == kb);
        assert(f(a.last().1) == f(b.last().1));
        let m2 = m.remove(ka);
        let a2 = a.drop_last();
        let b2 = b.drop_last();
        assert forall|i: int| 0 <= i < a2.len() implies m2.contains_key(#[trigger] a2[i].0) && m2[a2[i].0] == f(
            a2[i].1,
        ) by {
            assert(a[i] == a2[i]);
            assert(a[i].0 != a[a.len() - 1].0);
        }
        assert forall|i: int| 0 <= i < b2.len() implies m2.contains_key(#[trigger] b2[i].0) && m2[b2[i].0] == f(
            b2[i].1,
        ) by {
            assert(b[i] == b2[i]);
            assert(b[i].0 != b[b.len() - 1].0);
        }
        assert(m2.dom().len() == m.dom().len() - 1);
        lemma_sorted_unique(a2, b2, m2, f);
        assert(a =~= a2.push(a.last()));
        assert(b =~= b2.push(b.last()));
    } else {
        assert(m.dom().len() == 0);
        assert(b.len() == 0);
        assert(a =~= b);
    }
}

pub(crate) proof fn lemma_key_listed<T, V>(a: Seq<(usize, T)>, m: Map<usize, V>, f: spec_fn(T) -> V, k: usize)
    requires
        represents_by(a, m, f),
        m.contains_key(k),
    ensures
        exists|i: int| 0 <= i < a.len() && a[i].0 == k,
{
    let keys = Set::new(|x: usize| exists|i: int| 0 <= i < a.len() && a[i].0 == x);
    if !(exists|i: int| 0 <= i < a.len() && a[i].0 == k) {
        assert(keys.subset_of(m.dom().remove(k)));
        lemma_keys_len(a);
        vstd::set_lib::lemma_len_subset(keys, m.dom().remove(k));
    }
}

proof fn lemma_keys_len<T>(a: Seq<(usize, T)>)
    requires
        forall|i: int, j: int| 0 <= i < j < a.len() ==> a[i].0 != a[j].0,
    ensures
        Set::new(|x: usize| exists|i: int| 0 <= i < a.len() && a[i].0 == x).finite(),
        Set::new(|x: usize| exists|i: int| 0 <= i < a.len() && a[i].0 == x).len() == a.len(),
    decreases a.len(),
{
    let keys = Set::new(|x: usize| exists|i: int| 0 <= i < a.len() && a[i].0 == x);
    if a.len() == 0 {
        assert(keys =~= Set::empty());
    } else {
        let p = a.drop_last();
        lemma_keys_len(p);
        let pk = Set::new(|x: usize| exists|i: int| 0 <= i < p.len() && p[i].0 == x);
        assert(keys =~= pk.insert(a.last().0)) by {
            assert forall|x: usize| keys.contains(x) <==> pk.insert(a.last().0).contains(x) by {
                if keys.contains(x) {
                    let i = choose|i: int| 0 <= i < a.len() && a[i].0 == x;
                    if i < a.len() - 1 {
                        assert(p[i].0 == x);
                    }
                }
                if pk.contains(x) {
                    let i = choose|i: int| 0 <= i < p.len() && p[i].0 == x;
                    assert(a[i].0 == x);
                }
                if x == a.last().0 {
                    assert(a[a.len() - 1].0 == x);
                }
            }
        }
        assert(!pk.contains(a.last().0)) by {
            if pk.contains(a.last().0) {
                let i = choose|i: int| 0 <= i < p.len() && p[i].0 == a.last().0;
                assert(a[i].0 != a[a.len() - 1].0);
            }
        }
    }
}

/// A storage of the Pauli stacks of the qubits.
pub trait PauliStorage: Sized {
    /// The Pauli stacks, by qubit.
    spec fn stacks(&self) -> Map<usize, PauliVec>;

    /// Insert the stack of a qubit; [None] if the qubit was not present. A present qubit
    /// makes the result [Some].
    fn insert_pauli(&mut self, qubit: usize, pauli: PauliVec) -> (r: Option<PauliVec>)
        ensures
            !old(self).stacks().contains_key(qubit) ==> r is None && final(self).stacks() == old(
                self,
            ).stacks().insert(qubit, pauli),
            old(self).stacks().contains_key(qubit) ==> r is Some,
    ;

    /// Remove the stack of a qubit and return it; [None] if the qubit is not present.
    fn remove_pauli(&mut self, qubit: usize) -> (r: Option<PauliVec>)
        ensures
            final(self).stacks() == old(self).stacks().remove(qubit),
            r is Some <==> old(self).stacks().contains_key(qubit),
            r matches Some(p) ==> p == old(self).stacks()[qubit],
    ;

    /// The stack of a qubit, [None] if the qubit is not present.
    fn get(&self, qubit: usize) -> (r: Option<&PauliVec>)
        ensures
            r is Some <==> self.stacks().contains_key(qubit),
            r matches Some(p) ==> *p == self.stacks()[qubit],
    ;

    /// The qubits with their stacks, in no particular order.
    fn entries(&self) -> (r: Vec<(usize, &PauliVec)>)
        ensures
            represents_refs(r@, self.stacks()),
    ;

    /// The qubits with their stacks, in no particular order.
    fn into_entries(self) -> (r: Vec<(usize, PauliVec)>)
        ensures
            represents(r@, self.stacks()),
    ;

    /// A storage with the qubits `0..num_qubits`, each with an empty stack.
    fn init(num_qubits: usize) -> (r: Self)
        ensures
            r.stacks().dom() == Set::new(|q: usize| q < num_qubits),
            forall|q: usize|
                q < num_qubits ==> (#[trigger] r.stacks()[q]).xs().len() == 0 && r.stacks()[q].zs().len()
                    == 0,
    ;
}

/// `sort_by_key` of a vector of pairs by their first component; the sort is stable.
#[verifier::external_body]
pub(crate) fn sort_by_qubit<T>(v: &mut Vec<(usize, T)>)
    ensures
        final(v)@.to_multiset() == old(v)@.to_multiset(),
        forall|i: int, j: int| 0 <= i < j < final(v)@.len() ==> final(v)@[i].0 <= final(v)@[j].0,
{
    v.sort_by_key(|(i, _)| *i)
}

pub(crate) proof fn lemma_sorted_represents<T, V>(
    old_pairs: Seq<(usize, T)>,
    new_pairs: Seq<(usize, T)>,
    m: Map<usize, V>,
    f: spec_fn(T) -> V,
)
    requires
        represents_by(old_pairs, m, f),
        new_pairs.to_multiset() == old_pairs.to_multiset(),
        forall|i: int, j: int| 0 <= i < j < new_pairs.len() ==> new_pairs[i].0 <= new_pairs[j].0,
    ensures
        represents_by(new_pairs, m, f),
        sorted_by_key(new_pairs),
{
    broadcast use vstd::seq_lib::group_to_multiset_ensures;
    new_pairs.to_multiset_ensures();
    old_pairs.to_multiset_ensures();
    assert(new_pairs.len() == old_pairs.len());
    assert forall|i: int| 0 <= i < new_pairs.len() implies m.contains_key(#[trigger] new_pairs[i].0)
        && m[new_pairs[i].0] == f(new_pairs[i].1) by {
        assert(new_pairs.to_multiset().count(new_pairs[i]) > 0);
        assert(old_pairs.contains(new_pairs[i]));
    }
    assert forall|i: int, j: int| 0 <= i < j < new_pairs.len() implies new_pairs[i].0 != new_pairs[j].0 by {
        if new_pairs[i].0 == new_pairs[j].0 {
            let p = new_pairs[i];
            assert(new_pairs.to_multiset().count(p) > 0);
            assert(old_pairs.contains(p));
            let q = new_pairs[j];
            assert(new_pairs.to_multiset().count(q) > 0);
            assert(old_pairs.contains(q));
            let a = choose|a: int| 0 <= a < old_pairs.len() && old_pairs[a] == p;
            let b = choose|b: int| 0 <= b < old_pairs.len() && old_pairs[b] == q;
            assert(a == b);
            assert(p == q);
            lemma_count_two(new_pairs, i, j);
            lemma_count_one(old_pairs, p);
        }
    }
}

proof fn lemma_count_two<T>(s: Seq<T>, i: int, j: int)
    requires
        0 <= i < j < s.len(),
        s[i] == s[j],
    ensures
        s.to_multiset().count(s[i]) >= 2,
    decreases s.len(),
{
    broadcast use vstd::seq_lib::group_to_multiset_ensures;
    if j < s.len() - 1 {
        lemma_count_two(s.drop_last(), i, j);
        assert(s.drop_last().push(s.last()) =~= s);
    } else {
        assert(s.drop_last().push(s.last()) =~= s);
        assert(s.drop_last().to_multiset().count(s[i]) >= 1) by {
            assert(s.drop_last()[i] == s[i]);
        }
    }
}

proof fn lemma_count_one<T>(s: Seq<(usize, T)>, p: (usize, T))
    requires
        forall|i: int, j: int| 0 <= i < j < s.len() ==> s[i].0 != s[j].0,
    ensures
        s.to_multiset().count(p) <= 1,
    decreases s.len(),
{
    broadcast use vstd::seq_lib::group_to_multiset_ensures;
    if s.len() > 0 {
        lemma_count_one(s.drop_last(), p);
        assert(s.drop_last().push(s.last()) =~= s);
        if s.last() == p {
            assert forall|k: int| 0 <= k < s.drop_last().len() implies s.drop_last()[k] != p by {
                assert(s[k].0 != s[s.len() - 1].0);
            }
            assert(!s.drop_last().contains(p));
        }
    }
}

/// The qubits with their stacks, sorted by qubit.
pub fn sort_pauli_storage<S: PauliStorage>(storage: &S) -> (r: Vec<(usize, &PauliVec)>)
    ensures
        represents_refs(r@, storage.stacks()),
        sorted_by_key(r@),
{
    let mut ret = storage.entries();
    let ghost before = ret@;
    sort_by_qubit(&mut ret);
    proof {
        lemma_sorted_represents(before, ret@, storage.stacks(), |p: &PauliVec| *p);
    }
    ret
}

/// The qubits with their stacks, sorted by qubit.
pub fn into_sorted_pauli_storage<S: PauliStorage>(storage: S) -> (r: Vec<(usize, PauliVec)>)
    ensures
        represents(r@, storage.stacks()),
        sorted_by_key(r@),
{
    let ghost stacks = storage.stacks();
    let mut ret = storage.into_entries();
    let ghost before = ret@;
    sort_by_qubit(&mut ret);
    proof {
        lemma_sorted_represents(before, ret@, stacks, |p: PauliVec| p);
    }
    ret
}

} // verus!
