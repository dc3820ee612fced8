//! Collections of values keyed by qubit indices.
use vstd::prelude::*;

use crate::pauli_frame::{lemma_sorted_represents, represents_by, sort_by_qubit, sorted_by_key};

pub mod buffered_vector;
pub mod mapped_vector;

pub use buffered_vector::BufferedVector;
pub use mapped_vector::MappedVector;

verus! {

/// The basic operations of a collection of values keyed by qubit indices.
pub trait Base: Sized {
    /// The type of the values.
    type TB;

    /// The values by key.
    spec fn entries(&self) -> Map<usize, Self::TB>;

    /// Whether `key` may be removed (some collections only allow removing certain keys).
    spec fn can_remove(&self, key: usize) -> bool;

    /// Insert the value under the key; the value that was there, if any, is returned.
    /// Other entries stay (a collection may add more entries).
    fn insert(&mut self, key: usize, value: Self::TB) -> (r: Option<Self::TB>)
        ensures
            final(self).entries().contains_key(key),
            final(self).entries()[key] == value,
            old(self).entries().contains_key(key) ==> r == Some(old(self).entries()[key]),
            !old(self).entries().contains_key(key) ==> r is None,
            forall|k: usize|
                k != key && #[trigger] old(self).entries().contains_key(k) ==> final(self).entries().contains_key(k)
                    && final(self).entries()[k] == old(self).entries()[k],
    ;

    /// Remove the value under the key and return it; [None] if there is none.
    fn remove(&mut self, key: usize) -> (r: Option<Self::TB>)
        requires
            old(self).can_remove(key),
        ensures
            r is Some <==> old(self).entries().contains_key(key),
            r matches Some(v) ==> v == old(self).entries()[key],
            final(self).entries() == old(self).entries().remove(key),
    ;

    /// The value under the key, [None] if there is none.
    fn get(&self, key: usize) -> (r: Option<&Self::TB>)
        ensures
            r is Some <==> self.entries().contains_key(key),
            r matches Some(v) ==> *v == self.entries()[key],
    ;

    /// The number of entries.
    fn len(&self) -> (r: usize)
        ensures
            r == self.entries().dom().len(),
    ;

    /// Whether there are no entries.
    fn is_empty(&self) -> (r: bool)
        ensures
            r == (self.entries().dom().len() == 0),
    {
        self.len() == 0
    }
}

/// A collection whose entries can be listed.
pub trait Iterable: Sized {
    /// The type of the values.
    type TI;

    /// The values by key.
    spec fn listed(&self) -> Map<usize, Self::TI>;

    /// The keys with references to their values, each key once, in no particular order.
    fn pairs(&self) -> (r: Vec<(usize, &Self::TI)>)
        ensures
            represents_by(r@, self.listed(), |p: &Self::TI| *p),
    ;

    /// The keys with references to their values, sorted by key.
    fn sort_by_key(&self) -> (r: Vec<(usize, &Self::TI)>)
        ensures
            represents_by(r@, self.listed(), |p: &Self::TI| *p),
            sorted_by_key(r@),
    {
        let mut ret = self.pairs();
        let ghost before = ret@;
        sort_by_qubit(&mut ret);
        proof {
            lemma_sorted_represents(before, ret@, self.listed(), |p: &Self::TI| *p);
        }
        ret
    }
}

/// A collection that can be created with the keys `0..len`.
pub trait Init: Sized {
    /// A collection with the keys `0..len`.
    fn init(len: usize) -> Self;
}

/// A collection with the basic operations whose entries can be listed.
pub trait IterableBase: Base + Iterable {
}

/// A collection with all of the above that can be turned into its entries.
pub trait Full: IterableBase + Init {
    /// The keys with their values, each key once, in no particular order.
    fn into_pairs(self) -> (r: Vec<(usize, Self::TI)>)
        ensures
            represents_by(r@, self.listed(), |p: Self::TI| p),
    ;

    /// The keys with their values, sorted by key.
    fn into_sorted_by_key(self) -> (r: Vec<(usize, Self::TI)>)
        ensures
            represents_by(r@, self.listed(), |p: Self::TI| p),
            sorted_by_key(r@),
    {
        let ghost listed = self.listed();
        let mut ret = self.into_pairs();
        let ghost before = ret@;
        sort_by_qubit(&mut ret);
        proof {
            lemma_sorted_represents(before, ret@, listed, |p: Self::TI| p);
        }
        ret
    }
}

} // verus!
