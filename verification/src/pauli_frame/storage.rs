//! Storage types for the Pauli stacks of the qubits.
use std::collections::HashMap;

use vstd::prelude::*;
use vstd::std_specs::iter::IteratorSpec;

use super::{represents, represents_refs, PauliVec};
use crate::collection::mapped_vector::{lemma_slot_bijection, slot_bijection};

verus! {

broadcast use vstd::std_specs::hash::group_hash_axioms;

/// The Pauli stacks of the qubits in a hash map.
pub type SmallPauliStorage = HashMap<usize, PauliVec>;

impl super::PauliStorage for HashMap<usize, PauliVec> {
    open spec fn stacks(&self) -> Map<usize, PauliVec> {
        self@
    }

    /// A present qubit's stack is replaced, and the replaced stack is returned.
    fn insert_pauli(&mut self, qubit: usize, pauli: PauliVec) -> (r: Option<PauliVec>)
        ensures
            final(self)@ == old(self)@.insert(qubit, pauli),
            r == (if old(self)@.contains_key(qubit) {
                Some(old(self)@[qubit])
            } else {
                None
            }),
    {
        self.insert(qubit, pauli)
    }

    fn remove_pauli(&mut self, qubit: usize) -> (r: Option<PauliVec>) {
        self.remove(&qubit)
    }

    fn get(&self, qubit: usize) -> (r: Option<&PauliVec>) {
        HashMap::get(self, &qubit)
    }

    fn entries(&self) -> (r: Vec<(usize, &PauliVec)>) {
        let mut ret: Vec<(usize, &PauliVec)> = Vec::new();
        let ghost m = self@;
        let iter = self.iter();
        let ghost all = iter.remaining();
        proof {
            assert(all == vstd::std_specs::hash::spec_hash_map_iter(self).remaining());
        }
        for (k, v) in it: iter
            invariant
                m == self@,
                all == vstd::std_specs::hash::spec_hash_map_iter(self).remaining(),
                it.seq() == all,
                ret@.len() == it.index(),
                forall|i: int| 0 <= i < it.index() ==> (#[trigger] ret@[i]).0 == *all[i].0
                    && ret@[i].1 == all[i].1,
        {
            ret.push((*k, v));
        }
        proof {
            assert(ret@.len() == all.len());
            assert(all.len() == m.dom().len());
            assert(all.no_duplicates());
            assert forall|i: int|
                0 <= i < ret@.len() implies m.contains_key(#[trigger] ret@[i].0) && m[ret@[i].0]
                == *ret@[i].1 by {
                assert(m.contains_key(*all[i].0));
            }
            assert forall|i: int, j: int| 0 <= i < j < ret@.len() implies ret@[i].0 != ret@[j].0 by {
                assert(m.contains_key(*all[i].0));
                assert(m.contains_key(*all[j].0));
                if ret@[i].0 == ret@[j].0 {
                    assert(all[i] == all[j]);
                }
            }
        }
        ret
    }

    fn into_entries(self) -> (r: Vec<(usize, PauliVec)>) {
        let ghost m = self@;
        let mut map = self;
        let mut keys: Vec<usize> = Vec::new();
        let iter = map.keys();
        let ghost all = iter.remaining();
        for k in it: iter
            invariant
                all == vstd::std_specs::hash::spec_keys_iter(&map).remaining(),
                it.seq() == all,
                keys@.len() == it.index(),
                forall|i: int| 0 <= i < it.index() ==> (#[trigger] keys@[i]) == *all[i],
        {
            keys.push(*k);
        }
        proof {
            assert(all.unref().to_set() == m.dom());
            assert(all.no_duplicates());
            assert(keys@ =~= all.unref());
        }
        let mut ret: Vec<(usize, PauliVec)> = Vec::new();
        let mut i: usize = 0;
        while i < keys.len()
            invariant
                i <= keys@.len(),
                keys@.no_duplicates(),
                keys@.to_set() == m.dom(),
                map@ == m.remove_keys(keys@.take(i as int).to_set()),
                ret@.len() == i,
                forall|a: int| 0 <= a < i ==> (#[trigger] ret@[a]).0 == keys@[a] && ret@[a].1 == m[keys@[a]],
            decreases keys@.len() - i,
        {
            let k = keys[i];
            proof {
                assert(m.dom().contains(k));
                assert(!keys@.take(i as int).contains(k));
            }
            match map.remove(&k) {
                Some(p) => {
                    ret.push((k, p));
                },
                None => {},
            }
            proof {
                let before = keys@.take(i as int);
                let after = keys@.take(i + 1);
                assert(after =~= before.push(k));
                assert forall|x: usize| after.contains(x) <==> before.contains(x) || x == k by {
                    if after.contains(x) {
                        let w = choose|w: int| 0 <= w < after.len() && after[w] == x;
                        if w < i {
                            assert(before[w] == x);
                        }
                    }
                    if before.contains(x) {
                        let w = choose|w: int| 0 <= w < before.len() && before[w] == x;
                        assert(after[w] == x);
                    }
                    if x == k {
                        assert(after[i as int] == k);
                    }
                }
                assert(after.to_set() =~= before.to_set().insert(k));
                assert(map@ =~= m.remove_keys(keys@.take(i + 1).to_set()));
            }
            i += 1;
        }
        proof {
            keys@.unique_seq_to_set();
            assert(ret@.len() == m.dom().len());
            assert forall|a: int, b: int| 0 <= a < b < ret@.len() implies ret@[a].0 != ret@[b].0 by {
                assert(keys@[a] != keys@[b]);
            }
            assert forall|a: int| 0 <= a < ret@.len() implies m.contains_key(#[trigger] ret@[a].0) && m[ret@[a].0]
                == ret@[a].1 by {
                assert(keys@.to_set().contains(keys@[a]));
            }
        }
        ret
    }

    fn init(num_qubits: usize) -> (r: Self) {
        let mut ret: HashMap<usize, PauliVec> = HashMap::new();
        let mut i: usize = 0;
        while i < num_qubits
            invariant
                i <= num_qubits,
                ret@.dom() == Set::new(|q: usize| q < i),
                forall|q: usize| q < i ==> (#[trigger] ret@[q]).xs().len() == 0 && ret@[q].zs().len() == 0,
            decreases num_qubits - i,
        {
            ret.insert(i, PauliVec::new());
            proof {
                assert(ret@.dom() =~= Set::new(|q: usize| q < i + 1));
            }
            i += 1;
        }
        ret
    }
}

/// The Pauli stacks of the qubits in a vector, with the slot of each qubit's stack
/// in a hash map and the qubit of each slot in a second vector.
#[derive(Debug)]
pub struct PauliStorage {
    frames: Vec<PauliVec>,
    position: HashMap<usize, usize>,
    inverse_position: Vec<usize>,
}

/// The slot storage under the name of a vector whose entries are found through a map.
pub type MappedVector = PauliStorage;

impl PauliStorage {
    /// The stored stacks, by slot.
    pub closed spec fn stored(&self) -> Seq<PauliVec> {
        self.frames@
    }

    /// The slot of each qubit.
    pub closed spec fn slots(&self) -> Map<usize, usize> {
        self.position@
    }

    /// The qubit of each slot.
    pub closed spec fn owners(&self) -> Seq<usize> {
        self.inverse_position@
    }

    /// The qubits that have a slot.
    pub open spec fn qubits(&self) -> Set<usize> {
        self.slots().dom()
    }

    /// Each qubit's slot holds its stack, and each slot belongs to exactly one qubit.
    pub open spec fn wf(&self) -> bool {
        slot_bijection(self.slots(), self.owners(), self.stored().len())
    }

    /// The Pauli stacks, by qubit.
    pub open spec fn stacks(&self) -> Map<usize, PauliVec> {
        Map::new(|q: usize| self.slots().contains_key(q), |q: usize| self.stored()[self.slots()[q] as int])
    }

    /// The stored stacks, by slot.
    pub fn frames(&self) -> (r: &Vec<PauliVec>)
        ensures
            r@ == self.stored(),
    {
        &self.frames
    }

    /// The qubit of each slot.
    pub fn inverse_position(&self) -> (r: &Vec<usize>)
        ensures
            r@ == self.owners(),
    {
        &self.inverse_position
    }

    /// An empty storage.
    pub fn new() -> (r: Self)
        ensures
            r.wf(),
            r.stored() == Seq::<PauliVec>::empty(),
            r.slots() == Map::<usize, usize>::empty(),
            r.owners() == Seq::<usize>::empty(),
    {
        let r = Self { frames: Vec::new(), position: HashMap::new(), inverse_position: Vec::new() };
        proof {
            assert(r.slots() =~= Map::<usize, usize>::empty());
        }
        r
    }

    /// Insert the stack of a qubit that has no slot yet: it gets the next slot, and
    /// [None] is returned. For a qubit that has a slot, `pauli` is handed back and
    /// nothing is stored, but the qubit's slot is set to the number of stored stacks,
    /// a slot that does not exist, which leaves the storage not well-formed.
    pub fn insert_pauli(&mut self, qubit: usize, pauli: PauliVec) -> (r: Option<PauliVec>)
        ensures
            final(self).slots() == old(self).slots().insert(qubit, old(self).stored().len() as usize),
            old(self).slots().contains_key(qubit) ==> r == Some(pauli) && final(self).stored() == old(
                self,
            ).stored() && final(self).owners() == old(self).owners(),
            !old(self).slots().contains_key(qubit) ==> r is None && final(self).stored() == old(
                self,
            ).stored().push(pauli) && final(self).owners() == old(self).owners().push(qubit),
            old(self).wf() && !old(self).slots().contains_key(qubit) ==> final(self).wf()
                && final(self).stacks() == old(self).stacks().insert(qubit, pauli),
    {
        let ghost old_self = *self;
        if self.position.insert(qubit, self.frames.len()).is_some() {
            return Some(pauli);
        }
        self.frames.push(pauli);
        self.inverse_position.push(qubit);
        proof {
            if old_self.wf() {
                let n = old_self.stored().len();
                assert forall|q: usize| #[trigger]
                    self.slots().contains_key(q) implies self.slots()[q] < self.stored().len()
                    && self.owners()[self.slots()[q] as int] == q by {
                    if q != qubit {
                        assert(old_self.slots().contains_key(q));
                    }
                }
                assert forall|i: int| 0 <= i < self.owners().len() implies self.slots().contains_key(
                    #[trigger] self.owners()[i],
                ) && self.slots()[self.owners()[i]] == i by {
                    if i < n {
                        assert(old_self.owners()[i] == self.owners()[i]);
                        assert(old_self.slots().contains_key(old_self.owners()[i]));
                    }
                }
                assert(self.stacks() =~= old_self.stacks().insert(qubit, pauli));
            }
        }
        None
    }

    /// Remove the stack of a qubit and return it, moving the stack of the last slot
    /// into the freed slot; [None] if the qubit has no slot.
    pub fn remove_pauli(&mut self, qubit: usize) -> (r: Option<PauliVec>)
        requires
            old(self).wf(),
        ensures
            final(self).wf(),
            final(self).stacks() == old(self).stacks().remove(qubit),
            r is Some <==> old(self).stacks().contains_key(qubit),
            r matches Some(p) ==> p == old(self).stacks()[qubit],
            old(self).slots().contains_key(qubit) ==> final(self).stored() == old(self).stored().update(
                old(self).slots()[qubit] as int,
                old(self).stored().last(),
            ).drop_last() && final(self).owners() == old(self).owners().update(
                old(self).slots()[qubit] as int,
                old(self).owners().last(),
            ).drop_last(),
            old(self).slots().contains_key(qubit) ==> final(self).slots() == (if old(self).slots()[qubit] + 1
                == old(self).stored().len() {
                old(self).slots().remove(qubit)
            } else {
                old(self).slots().remove(qubit).insert(old(self).owners().last(), old(self).slots()[qubit])
            }),
            !old(self).slots().contains_key(qubit) ==> final(self).stored() == old(self).stored()
                && final(self).owners() == old(self).owners() && final(self).slots() == old(self).slots(),
    {
        let ghost old_self = *self;
        let current = match self.position.remove(&qubit) {
            Some(c) => c,
            None => {
                proof {
                    assert(self.stacks() =~= old_self.stacks().remove(qubit));
                }
                return None;
            },
        };
        let ghost last = old_self.owners().len() - 1;
        let ghost moved = old_self.owners()[last];
        proof {
            assert(old_self.slots().contains_key(moved));
        }
        self.inverse_position.swap_remove(current);
        if current != self.inverse_position.len() {
            let m = self.inverse_position[current];
            proof {
                assert(m == moved);
                assert(moved != qubit);
            }
            self.position.insert(m, current);
        }
        let r = self.frames.swap_remove(current);
        proof {
            assert forall|q: usize| #[trigger]
                self.slots().contains_key(q) implies self.slots()[q] < self.stored().len()
                && self.owners()[self.slots()[q] as int] == q by {
                assert(old_self.slots().contains_key(q));
                if q != moved {
                    assert(old_self.slots()[q] != last);
                }
            }
            assert forall|i: int| 0 <= i < self.owners().len() implies self.slots().contains_key(
                #[trigger] self.owners()[i],
            ) && self.slots()[self.owners()[i]] == i by {
                if i != current {
                    assert(old_self.owners()[i] == self.owners()[i]);
                    assert(old_self.slots().contains_key(old_self.owners()[i]));
                }
            }
            assert forall|q: usize| #[trigger] self.slots().contains_key(q) implies self.stored()[self.slots()[q] as int]
                == old_self.stored()[old_self.slots()[q] as int] by {
                assert(old_self.slots().contains_key(q));
            }
            assert(self.stacks() =~= old_self.stacks().remove(qubit));
        }
        Some(r)
    }

    /// The stack of a qubit, [None] if the qubit has no slot.
    pub fn get(&self, qubit: usize) -> (r: Option<&PauliVec>)
        requires
            self.wf(),
        ensures
            r is Some <==> self.stacks().contains_key(qubit),
            r matches Some(p) ==> *p == self.stacks()[qubit],
    {
        match self.position.get(&qubit) {
            Some(i) => {
                proof {
                    assert(self.slots().contains_key(qubit));
                }
                Some(&self.frames[*i])
            },
            None => None,
        }
    }

    /// The qubits with their stacks, slot by slot.
    pub fn iter(&self) -> (r: Vec<(usize, &PauliVec)>)
        requires
            self.wf(),
        ensures
            r@.len() == self.owners().len(),
            forall|i: int| 0 <= i < r@.len() ==> (#[trigger] r@[i]).0 == self.owners()[i] && *r@[i].1 == self.stored()[i],
            represents_refs(r@, self.stacks()),
    {
        let mut ret: Vec<(usize, &PauliVec)> = Vec::new();
        let mut i: usize = 0;
        while i < self.frames.len()
            invariant
                self.wf(),
                i <= self.frames@.len(),
                ret@.len() == i,
                forall|j: int| 0 <= j < i ==> (#[trigger] ret@[j]).0 == self.owners()[j] && *ret@[j].1 == self.stored()[j],
            decreases self.frames@.len() - i,
        {
            ret.push((self.inverse_position[i], &self.frames[i]));
            i += 1;
        }
        proof {
            lemma_slot_bijection(self.slots(), self.owners(), self.stored().len());
            assert(self.stacks().dom() =~= self.slots().dom());
            assert forall|i: int| 0 <= i < ret@.len() implies self.stacks().contains_key(#[trigger] ret@[i].0)
                && self.stacks()[ret@[i].0] == *ret@[i].1 by {
                assert(self.slots().contains_key(self.owners()[i]));
            }
        }
        ret
    }

    /// The qubits with their stacks, slot by slot.
    pub fn into_pairs(self) -> (r: Vec<(usize, PauliVec)>)
        requires
            self.wf(),
        ensures
            r@.len() == self.owners().len(),
            forall|i: int| 0 <= i < r@.len() ==> (#[trigger] r@[i]).0 == self.owners()[i] && r@[i].1 == self.stored()[i],
            represents(r@, self.stacks()),
    {
        let ghost s = self;
        let PauliStorage { frames, position: _, inverse_position } = self;
        let total = frames.len();
        let ghost n = s.stored().len();
        let mut frames = frames;
        // the stacks are popped twice, so they come out in slot order
        let mut rev: Vec<PauliVec> = Vec::new();
        while frames.len() > 0
            invariant
                n == s.stored().len(),
                frames@.len() + rev@.len() == n,
                forall|j: int| 0 <= j < frames@.len() ==> frames@[j] == s.stored()[j],
                forall|j: int| 0 <= j < rev@.len() ==> rev@[j] == s.stored()[n - 1 - j],
            decreases frames@.len(),
        {
            let f = frames.pop().unwrap();
            rev.push(f);
        }
        let mut ret: Vec<(usize, PauliVec)> = Vec::new();
        let mut i: usize = 0;
        while rev.len() > 0
            invariant
                s.wf(),
                n == s.stored().len(),
                inverse_position@ == s.owners(),
                n == total,
                rev@.len() + i == n,
                forall|j: int| 0 <= j < rev@.len() ==> rev@[j] == s.stored()[n - 1 - j],
                ret@.len() == i,
                forall|j: int| 0 <= j < i ==> (#[trigger] ret@[j]).0 == s.owners()[j] && ret@[j].1 == s.stored()[j],
            decreases rev@.len(),
        {
            let f = rev.pop().unwrap();
            ret.push((inverse_position[i], f));
            i += 1;
        }
        proof {
            lemma_slot_bijection(s.slots(), s.owners(), s.stored().len());
            assert(s.stacks().dom() =~= s.slots().dom());
            assert forall|i: int| 0 <= i < ret@.len() implies s.stacks().contains_key(#[trigger] ret@[i].0)
                && s.stacks()[ret@[i].0] == ret@[i].1 by {
                assert(s.slots().contains_key(s.owners()[i]));
            }
        }
        ret
    }

    /// A storage with the qubits `0..num_qubits`, qubit `q` in slot `q`, each with an
    /// empty stack.
    pub fn init(num_qubits: usize) -> (r: Self)
        ensures
            r.wf(),
            r.stacks().dom() == Set::new(|q: usize| q < num_qubits),
            forall|q: usize|
                q < num_qubits ==> (#[trigger] r.stacks()[q]).xs().len() == 0 && r.stacks()[q].zs().len() == 0,
            r.owners() == Seq::new(num_qubits as nat, |i: int| i as usize),
    {
        let mut r = Self::new();
        let mut i: usize = 0;
        while i < num_qubits
            invariant
                i <= num_qubits,
                r.wf(),
                r.stacks().dom() == Set::new(|q: usize| q < i),
                forall|q: usize| q < i ==> (#[trigger] r.stacks()[q]).xs().len() == 0 && r.stacks()[q].zs().len() == 0,
                r.owners() == Seq::new(i as nat, |j: int| j as usize),
            decreases num_qubits - i,
        {
            let _ = r.insert_pauli(i, PauliVec::new());
            proof {
                assert(r.stacks().dom() =~= Set::new(|q: usize| q < i + 1));
                assert(r.owners() =~= Seq::new((i + 1) as nat, |j: int| j as usize));
            }
            i += 1;
        }
        r
    }
}

} // verus!
