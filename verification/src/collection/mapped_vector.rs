//! A collection whose values sit in a vector, each key finding its value's slot
//! through a hash map.
use vstd::prelude::*;

use super::{Base, Full, Init, Iterable, IterableBase};

verus! {

/// The slot of each key, in a hash map of hashbrown.
#[verifier::external_body]
#[derive(Debug)]
pub struct Slots(hashbrown::HashMap<usize, usize>);

/// The key-slot pairs that a slot map holds.
pub uninterp spec fn slots_held(slots: Slots) -> Map<usize, usize>;

/// `hashbrown::HashMap::new`: an empty map.
#[verifier::external_body]
fn slots_new() -> (r: Slots)
    ensures
        slots_held(r).dom() == Set::<usize>::empty(),
{
    Slots(hashbrown::HashMap::new())
}

/// `hashbrown::HashMap::with_capacity`: an empty map with room reserved. Its table
/// size check panics only for capacities far above the bound of `requires`.
#[verifier::external_body]
fn slots_with_capacity(capacity: usize) -> (r: Slots)
    requires
        capacity <= usize::MAX / 128,
    ensures
        slots_held(r).dom() == Set::<usize>::empty(),
{
    Slots(hashbrown::HashMap::with_capacity(capacity))
}

/// `hashbrown::HashMap::get`: the slot of the key, [None] if the key is absent.
#[verifier::external_body]
fn slots_get(slots: &Slots, key: usize) -> (r: Option<usize>)
    ensures
        r == (if slots_held(*slots).contains_key(key) {
            Some(slots_held(*slots)[key])
        } else {
            None
        }),
{
    slots.0.get(&key).copied()
}

/// `hashbrown::HashMap::insert`: the key now has the slot; the slot it had, if any, is
/// returned. Growing the table panics only on a capacity overflow, which needs more
/// entries than a table in memory can hold.
#[verifier::external_body]
fn slots_insert(slots: &mut Slots, key: usize, slot: usize) -> (r: Option<usize>)
    ensures
        slots_held(*final(slots)) == slots_held(*old(slots)).insert(key, slot),
        r == (if slots_held(*old(slots)).contains_key(key) {
            Some(slots_held(*old(slots))[key])
        } else {
            None
        }),
{
    slots.0.insert(key, slot)
}

/// `hashbrown::HashMap::remove`: the key leaves the map; its slot is returned, [None]
/// if the key was absent.
#[verifier::external_body]
fn slots_remove(slots: &mut Slots, key: usize) -> (r: Option<usize>)
    ensures
        slots_held(*final(slots)) == slots_held(*old(slots)).remove(key),
        r == (if slots_held(*old(slots)).contains_key(key) {
            Some(slots_held(*old(slots))[key])
        } else {
            None
        }),
{
    slots.0.remove(&key)
}

/// `hashbrown::HashMap::clone`: a map with the same pairs.
#[verifier::external_body]
fn slots_clone(slots: &Slots) -> (r: Slots)
    ensures
        slots_held(r) == slots_held(*slots),
{
    Slots(slots.0.clone())
}

/// Each of the first `len` slots belongs to the key listed for it in `owners`, and
/// each key in `slots` owns the slot it maps to.
pub open spec fn slot_bijection(slots: Map<usize, usize>, owners: Seq<usize>, len: nat) -> bool {
    &&& owners.len() == len
    &&& forall|q: usize| #[trigger]
        slots.contains_key(q) ==> slots[q] < len && owners[slots[q] as int] == q
    &&& forall|i: int|
        0 <= i < owners.len() ==> slots.contains_key(#[trigger] owners[i]) && slots[owners[i]] == i
}

/// In a slot bijection, the owners list each key once.
pub proof fn lemma_slot_bijection(slots: Map<usize, usize>, owners: Seq<usize>, len: nat)
    requires
        slot_bijection(slots, owners, len),
    ensures
        owners.no_duplicates(),
        owners.to_set() == slots.dom(),
        slots.dom().finite(),
        slots.dom().len() == len,
{
    assert forall|i: int, j: int| 0 <= i < owners.len() && 0 <= j < owners.len() && i != j implies owners[i]
        != owners[j] by {
        assert(slots.contains_key(owners[i]));
        assert(slots.contains_key(owners[j]));
    }
    assert forall|q: usize| owners.to_set().contains(q) <==> slots.dom().contains(q) by {
        if slots.dom().contains(q) {
            assert(owners[slots[q] as int] == q);
        }
        if owners.to_set().contains(q) {
            let w = choose|w: int| 0 <= w < owners.len() && owners[w] == q;
            assert(slots.contains_key(owners[w]));
        }
    }
    assert(owners.to_set() =~= slots.dom());
    owners.unique_seq_to_set();
}

/// Values in a vector, each under a key whose slot a hash map holds; a second vector
/// holds the key of each slot.
#[derive(Debug)]
pub struct MappedVector<T> {
    frames: Vec<T>,
    position: Slots,
    inverse_position: Vec<usize>,
}

impl<T> MappedVector<T> {
    /// The stored values, by slot.
    pub closed spec fn stored(&self) -> Seq<T> {
        self.frames@
    }

    /// The slot of each key.
    pub closed spec fn slots(&self) -> Map<usize, usize> {
        slots_held(self.position)
    }

    /// The key of each slot.
    pub closed spec fn owners(&self) -> Seq<usize> {
        self.inverse_position@
    }

    /// The values by key.
    pub open spec fn entries_by_key(&self) -> Map<usize, T> {
        Map::new(|k: usize| self.slots().contains_key(k), |k: usize| self.stored()[self.slots()[k] as int])
    }

    #[verifier::type_invariant]
    spec fn well_formed(&self) -> bool {
        slot_bijection(self.slots(), self.owners(), self.stored().len())
    }

    /// An empty collection.
    pub fn new() -> (r: Self)
        ensures
            r.stored() == Seq::<T>::empty(),
            r.owners() == Seq::<usize>::empty(),
            r.slots() == Map::<usize, usize>::empty(),
    {
        let r = Self { frames: Vec::new(), position: slots_new(), inverse_position: Vec::new() };
        proof {
            assert(r.slots() =~= Map::<usize, usize>::empty());
        }
        r
    }

    /// An empty collection with room reserved for `capacity` values.
    pub fn with_capacity(capacity: usize) -> (r: Self)
        requires
            capacity <= usize::MAX / 128,
        ensures
            r.stored() == Seq::<T>::empty(),
            r.owners() == Seq::<usize>::empty(),
            r.slots() == Map::<usize, usize>::empty(),
    {
        let r = Self {
            frames: Vec::with_capacity(capacity),
            position: slots_with_capacity(capacity),
            inverse_position: Vec::with_capacity(capacity),
        };
        proof {
            assert(r.slots() =~= Map::<usize, usize>::empty());
        }
        r
    }

    /// The stored values, by slot.
    pub fn frames(&self) -> (r: &Vec<T>)
        ensures
            r@ == self.stored(),
    {
        &self.frames
    }

    /// The key of each slot.
    pub fn inverse_position(&self) -> (r: &Vec<usize>)
        ensures
            r@ == self.owners(),
    {
        &self.inverse_position
    }
}

impl<T> Default for MappedVector<T> {
    /// An empty collection.
    fn default() -> (r: Self)
        ensures
            r.stored() == Seq::<T>::empty(),
            r.owners() == Seq::<usize>::empty(),
            r.slots() == Map::<usize, usize>::empty(),
    {
        Self::new()
    }
}

impl<T: Clone> Clone for MappedVector<T> {
    /// A collection with the same slots, each value cloned.
    fn clone(&self) -> (r: Self)
        ensures
            r.slots() == self.slots(),
            r.owners() == self.owners(),
            r.stored().len() == self.stored().len(),
            forall|i: int| 0 <= i < self.stored().len() ==> cloned::<T>(self.stored()[i], #[trigger] r.stored()[i]),
    {
        proof {
            use_type_invariant(self);
        }
        Self {
            frames: self.frames.clone(),
            position: slots_clone(&self.position),
            inverse_position: self.inverse_position.clone(),
        }
    }
}

impl<T> Base for MappedVector<T> {
    type TB = T;

    open spec fn entries(&self) -> Map<usize, T> {
        self.entries_by_key()
    }

    open spec fn can_remove(&self, key: usize) -> bool {
        true
    }

    /// A new key takes the next slot; a present key has its value replaced in its
    /// slot.
    fn insert(&mut self, key: usize, value: T) -> (r: Option<T>)
        ensures
            old(self).slots().contains_key(key) ==> final(self).slots() == old(self).slots()
                && final(self).owners() == old(self).owners() && final(self).stored() == old(
                self,
            ).stored().update(old(self).slots()[key] as int, value),
            !old(self).slots().contains_key(key) ==> final(self).slots() == old(self).slots().insert(
                key,
                old(self).stored().len() as usize,
            ) && final(self).owners() == old(self).owners().push(key) && final(self).stored()
                == old(self).stored().push(value),
    {
        proof {
            use_type_invariant(&*self);
        }
        let mut this = Self::new();
        std::mem::swap(self, &mut this);
        proof {
            use_type_invariant(&this);
        }
        let ghost before = this;
        let MappedVector { mut frames, mut position, mut inverse_position } = this;
        let r = match slots_get(&position, key) {
            Some(slot) => {
                let mut v = value;
                frames.set_and_swap(slot, &mut v);
                proof {
                    assert forall|k: usize| #[trigger]
                        slots_held(position).contains_key(k) && k != key implies frames@[slots_held(
                            position,
                        )[k] as int] == before.stored()[before.slots()[k] as int] by {
                        assert(inverse_position@[slots_held(position)[k] as int] == k);
                    }
                }
                Some(v)
            },
            None => {
                let len = frames.len();
                let _ = slots_insert(&mut position, key, len);
                frames.push(value);
                inverse_position.push(key);
                proof {
                    let slots = slots_held(position);
                    assert forall|q: usize| #[trigger]
                        slots.contains_key(q) implies slots[q] < frames@.len()
                        && inverse_position@[slots[q] as int] == q by {
                        if q != key {
                            assert(before.slots().contains_key(q));
                        }
                    }
                    assert forall|i: int| 0 <= i < inverse_position@.len() implies slots.contains_key(
                        #[trigger] inverse_position@[i],
                    ) && slots[inverse_position@[i]] == i by {
                        if i < len {
                            assert(before.owners()[i] == inverse_position@[i]);
                            assert(before.slots().contains_key(before.owners()[i]));
                        }
                    }
                }
                None
            },
        };
        *self = MappedVector { frames, position, inverse_position };
        proof {
            assert(self.entries_by_key() =~= before.entries_by_key().insert(key, value));
        }
        r
    }

    /// The value of the last slot moves into the slot that is freed.
    fn remove(&mut self, key: usize) -> (r: Option<T>)
        ensures
            old(self).slots().contains_key(key) ==> final(self).stored() == old(self).stored().update(
                old(self).slots()[key] as int,
                old(self).stored().last(),
            ).drop_last() && final(self).owners() == old(self).owners().update(
                old(self).slots()[key] as int,
                old(self).owners().last(),
            ).drop_last(),
            old(self).slots().contains_key(key) ==> final(self).slots() == (if old(self).slots()[key] + 1
                == old(self).stored().len() {
                old(self).slots().remove(key)
            } else {
                old(self).slots().remove(key).insert(old(self).owners().last(), old(self).slots()[key])
            }),
            !old(self).slots().contains_key(key) ==> final(self).stored() == old(self).stored()
                && final(self).owners() == old(self).owners() && final(self).slots() == old(self).slots(),
    {
        proof {
            use_type_invariant(&*self);
        }
        let mut this = Self::new();
        std::mem::swap(self, &mut this);
        proof {
            use_type_invariant(&this);
        }
        let ghost before = this;
        let MappedVector { mut frames, mut position, mut inverse_position } = this;
        let r = match slots_remove(&mut position, key) {
            None => None,
            Some(key_position) => {
                let ghost last = before.owners().len() - 1;
                let ghost moved = before.owners()[last];
                proof {
                    assert(before.slots().contains_key(moved));
                }
                inverse_position.swap_remove(key_position);
                if key_position != inverse_position.len() {
                    let m = inverse_position[key_position];
                    proof {
                        assert(m == moved);
                        assert(moved != key);
                    }
                    let _ = slots_insert(&mut position, m, key_position);
                }
                let value = frames.swap_remove(key_position);
                proof {
                    let slots = slots_held(position);
                    assert forall|q: usize| #[trigger]
                        slots.contains_key(q) implies slots[q] < frames@.len()
                        && inverse_position@[slots[q] as int] == q by {
                        assert(before.slots().contains_key(q));
                        if q != moved {
                            assert(before.slots()[q] != last);
                        }
                    }
                    assert forall|i: int| 0 <= i < inverse_position@.len() implies slots.contains_key(
                        #[trigger] inverse_position@[i],
                    ) && slots[inverse_position@[i]] == i by {
                        if i != key_position {
                            assert(before.owners()[i] == inverse_position@[i]);
                            assert(before.slots().contains_key(before.owners()[i]));
                        }
                    }
                    assert forall|q: usize| #[trigger]
                        slots.contains_key(q) implies frames@[slots[q] as int]
                        == before.stored()[before.slots()[q] as int] by {
                        assert(before.slots().contains_key(q));
                    }
                }
                Some(value)
            },
        };
        *self = MappedVector { frames, position, inverse_position };
        proof {
            assert(self.entries_by_key() =~= before.entries_by_key().remove(key));
        }
        r
    }

    fn get(&self, key: usize) -> (r: Option<&T>) {
        proof {
            use_type_invariant(self);
        }
        match slots_get(&self.position, key) {
            Some(slot) => {
                proof {
                    assert(self.slots().contains_key(key));
                }
                Some(&self.frames[slot])
            },
            None => None,
        }
    }

    fn len(&self) -> (r: usize) {
        proof {
            use_type_invariant(self);
            lemma_slot_bijection(self.slots(), self.owners(), self.stored().len());
            assert(self.entries_by_key().dom() =~= self.slots().dom());
        }
        self.frames.len()
    }
}

impl<T> Iterable for MappedVector<T> {
    type TI = T;

    open spec fn listed(&self) -> Map<usize, T> {
        self.entries_by_key()
    }

    /// The keys with references to their values, slot by slot.
    fn pairs(&self) -> (r: Vec<(usize, &T)>)
        ensures
            r@.len() == self.owners().len(),
            forall|i: int| 0 <= i < r@.len() ==> (#[trigger] r@[i]).0 == self.owners()[i] && *r@[i].1 == self.stored()[i],
    {
        proof {
            use_type_invariant(self);
        }
        let mut ret: Vec<(usize, &T)> = Vec::new();
        let mut i: usize = 0;
        while i < self.frames.len()
            invariant
                slot_bijection(self.slots(), self.owners(), self.stored().len()),
                i <= self.frames@.len(),
                ret@.len() == i,
                forall|j: int| 0 <= j < i ==> (#[trigger] ret@[j]).0 == self.owners()[j] && *ret@[j].1 == self.stored()[j],
            decreases self.frames@.len() - i,
        {
            ret.push((self.inverse_position[i], &self.frames[i]));
            i += 1;
        }
        proof {
            lemma_slot_bijection(self.slots(), self.owners(), self.stored().len());
            assert(self.entries_by_key().dom() =~= self.slots().dom());
            assert forall|i: int| 0 <= i < ret@.len() implies self.entries_by_key().contains_key(
                #[trigger] ret@[i].0,
            ) && self.entries_by_key()[ret@[i].0] == *ret@[i].1 by {
                assert(self.slots().contains_key(self.owners()[i]));
            }
        }
        ret
    }
}

impl<T> IterableBase for MappedVector<T> {

}

impl<T: Clone + Default> Init for MappedVector<T> {
    /// The keys `0..len`, key `k` in slot `k`, each with a clone of the default value.
    fn init(len: usize) -> (r: Self)
        ensures
            r.slots() == Map::new(|k: usize| k < len, |k: usize| k),
            r.owners() == Seq::new(len as nat, |i: int| i as usize),
            r.stored().len() == len,
    {
        let init_val = T::default();
        let mut frames: Vec<T> = Vec::new();
        let mut position = slots_new();
        let mut inverse_position: Vec<usize> = Vec::new();
        proof {
            assert(slots_held(position) =~= Map::new(|k: usize| k < 0, |k: usize| k));
        }
        let mut i: usize = 0;
        while i < len
            invariant
                i <= len,
                frames@.len() == i,
                slots_held(position) == Map::new(|k: usize| k < i, |k: usize| k),
                inverse_position@ == Seq::new(i as nat, |j: int| j as usize),
            decreases len - i,
        {
            frames.push(init_val.clone());
            let _ = slots_insert(&mut position, i, i);
            inverse_position.push(i);
            proof {
                assert(slots_held(position) =~= Map::new(|k: usize| k < i + 1, |k: usize| k));
                assert(inverse_position@ =~= Seq::new((i + 1) as nat, |j: int| j as usize));
            }
            i += 1;
        }
        MappedVector { frames, position, inverse_position }
    }
}

impl<T: Clone + Default> Full for MappedVector<T> {
    /// The keys with their values, slot by slot.
    fn into_pairs(self) -> (r: Vec<(usize, T)>)
        ensures
            r@.len() == self.owners().len(),
            forall|i: int| 0 <= i < r@.len() ==> (#[trigger] r@[i]).0 == self.owners()[i] && r@[i].1 == self.stored()[i],
    {
        proof {
            use_type_invariant(&self);
        }
        let ghost s = self;
        let MappedVector { frames, position: _, inverse_position } = self;
        let total = frames.len();
        let ghost n = s.stored().len();
        let mut frames = frames;
        // the values are popped twice, so they come out in slot order
        let mut rev: Vec<T> = Vec::new();
        while frames.len() > 0
            invariant
                n == s.stored().len(),
                frames@.len() + rev@.len() == n,
                forall|j: int| 0 <= j < frames@.len() ==> frames@[j] == s.stored()[j],
                forall|j: int| 0 <= j < rev@.len() ==> rev@[j] == s.stored()[n - 1 - j],
            decreases frames@.len(),
        {
            let f = frames.pop().unwrap();
            rev.push(f);
        }
        let mut ret: Vec<(usize, T)> = Vec::new();
        let mut i: usize = 0;
        while rev.len() > 0
            invariant
                slot_bijection(s.slots(), s.owners(), s.stored().len()),
                n == s.stored().len(),
                inverse_position@ == s.owners(),
                n == total,
                rev@.len() + i == n,
                forall|j: int| 0 <= j < rev@.len() ==> rev@[j] == s.stored()[n - 1 - j],
                ret@.len() == i,
                forall|j: int| 0 <= j < i ==> (#[trigger] ret@[j]).0 == s.owners()[j] && ret@[j].1 == s.stored()[j],
            decreases rev@.len(),
        {
            let f = rev.pop().unwrap();
            ret.push((inverse_position[i], f));
            i += 1;
        }
        proof {
            lemma_slot_bijection(s.slots(), s.owners(), s.stored().len());
            assert(s.entries_by_key().dom() =~= s.slots().dom());
            assert forall|i: int| 0 <= i < ret@.len() implies s.entries_by_key().contains_key(
                #[trigger] ret@[i].0,
            ) && s.entries_by_key()[ret@[i].0] == ret@[i].1 by {
                assert(s.slots().contains_key(s.owners()[i]));
            }
        }
        ret
    }
}

} // verus!
