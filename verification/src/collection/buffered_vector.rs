//! A collection backed by a plain vector: the keys are the indices.
use vstd::prelude::*;

use super::{Base, Full, Init, Iterable, IterableBase};

verus! {

/// A vector whose indices are the keys. Inserting past the end fills the gap with
/// default values; only the last entry can be removed.
#[derive(Clone, PartialEq, Eq, PartialOrd, Ord, Debug)]
pub struct BufferedVector<T>(pub Vec<T>);

impl<T> BufferedVector<T> {
    /// An empty vector.
    pub fn new() -> (r: Self)
        ensures
            r.0@ == Seq::<T>::empty(),
    {
        Self(Vec::new())
    }

    /// The entries of the vector: each index with its element.
    pub open spec fn index_map(&self) -> Map<usize, T> {
        Map::new(|k: usize| k < self.0@.len(), |k: usize| self.0@[k as int])
    }
}

impl<T> Default for BufferedVector<T> {
    /// An empty vector.
    fn default() -> (r: Self)
        ensures
            r.0@ == Seq::<T>::empty(),
    {
        Self(Vec::new())
    }
}

impl<T> From<Vec<T>> for BufferedVector<T> {
    fn from(vec: Vec<T>) -> (r: Self)
        ensures
            r.0@ == vec@,
    {
        Self(vec)
    }
}

impl<T> vstd::std_specs::convert::FromSpecImpl<Vec<T>> for BufferedVector<T> {
    open spec fn obeys_from_spec() -> bool {
        true
    }

    open spec fn from_spec(v: Vec<T>) -> Self {
        BufferedVector(v)
    }
}

proof fn lemma_index_map_len<T>(s: Seq<T>)
    requires
        s.len() <= usize::MAX,
    ensures
        Map::new(|k: usize| k < s.len(), |k: usize| s[k as int]).dom().len() == s.len(),
        Map::new(|k: usize| k < s.len(), |k: usize| s[k as int]).dom().finite(),
    decreases s.len(),
{
    let m = Map::new(|k: usize| k < s.len(), |k: usize| s[k as int]);
    if s.len() == 0 {
        assert(m.dom() =~= Set::<usize>::empty());
    } else {
        let p = s.drop_last();
        lemma_index_map_len(p);
        let pm = Map::new(|k: usize| k < p.len(), |k: usize| p[k as int]);
        assert(m.dom() =~= pm.dom().insert((s.len() - 1) as usize));
    }
}

impl<T: Default + Clone> Base for BufferedVector<T> {
    type TB = T;

    open spec fn entries(&self) -> Map<usize, T> {
        self.index_map()
    }

    open spec fn can_remove(&self, key: usize) -> bool {
        self.0@.len() == 0 || key >= self.0@.len() - 1
    }

    /// Replace the element at the key, or push the value at the end; a key past the
    /// end is reached by pushing default values first.
    fn insert(&mut self, key: usize, value: T) -> (r: Option<T>)
        ensures
            key < old(self).0@.len() ==> final(self).0@ == old(self).0@.update(key as int, value),
            key >= old(self).0@.len() ==> final(self).0@.len() == key + 1 && final(self).0@.last()
                == value && final(self).0@.take(old(self).0@.len() as int) == old(self).0@,
    {
        let len = self.0.len();
        if key < len {
            let mut old_value = value;
            std::mem::swap(&mut self.0[key], &mut old_value);
            proof {
                assert(self.index_map() =~= old(self).index_map().insert(key, self.0@[key as int]));
            }
            Some(old_value)
        } else if key == len {
            self.0.push(value);
            proof {
                assert(self.0@.take(len as int) =~= old(self).0@);
            }
            None
        } else {
            let diff = key - len;
            let mut i: usize = 0;
            while i < diff
                invariant
                    i <= diff,
                    diff == key - len,
                    len == old(self).0@.len(),
                    self.0@.len() == len + i,
                    self.0@.take(len as int) == old(self).0@,
                decreases diff - i,
            {
                self.0.push(T::default());
                proof {
                    assert(self.0@.take(len as int) =~= old(self).0@);
                }
                i += 1;
            }
            self.0.push(value);
            proof {
                assert(self.0@.take(len as int) =~= old(self).0@);
            }
            None
        }
    }

    /// Pop the last element if the key is the last index; [None] for a key past the end.
    fn remove(&mut self, key: usize) -> (r: Option<T>) {
        let len = self.0.len();
        if len == 0 {
            proof {
                assert(old(self).index_map().remove(key) =~= old(self).index_map());
            }
            return None;
        }
        if key == len - 1 {
            let r = self.0.pop();
            proof {
                assert(self.index_map() =~= old(self).index_map().remove(key));
            }
            r
        } else {
            proof {
                assert(old(self).index_map().remove(key) =~= old(self).index_map());
            }
            None
        }
    }

    fn get(&self, key: usize) -> (r: Option<&T>) {
        if key < self.0.len() {
            Some(&self.0[key])
        } else {
            None
        }
    }

    fn len(&self) -> (r: usize) {
        let n = self.0.len();
        proof {
            lemma_index_map_len(self.0@);
        }
        n
    }
}

impl<T: Default + Clone> Iterable for BufferedVector<T> {
    type TI = T;

    open spec fn listed(&self) -> Map<usize, T> {
        self.index_map()
    }

    fn pairs(&self) -> (r: Vec<(usize, &T)>) {
        let mut ret: Vec<(usize, &T)> = Vec::new();
        let mut i: usize = 0;
        while i < self.0.len()
            invariant
                i <= self.0@.len(),
                ret@.len() == i,
                forall|k: int| 0 <= k < i ==> (#[trigger] ret@[k]).0 == k && *ret@[k].1 == self.0@[k],
            decreases self.0@.len() - i,
        {
            ret.push((i, &self.0[i]));
            i += 1;
        }
        proof {
            lemma_index_map_len(self.0@);
        }
        ret
    }
}

impl<T: Default + Clone> IterableBase for BufferedVector<T> {
}

impl<T: Default + Clone> Init for BufferedVector<T> {
    /// `len` default values.
    fn init(len: usize) -> (r: Self)
        ensures
            r.0@.len() == len,
    {
        let mut v: Vec<T> = Vec::new();
        let mut i: usize = 0;
        while i < len
            invariant
                i <= len,
                v@.len() == i,
            decreases len - i,
        {
            v.push(T::default());
            i += 1;
        }
        Self(v)
    }
}

impl<T: Default + Clone> Full for BufferedVector<T> {
    /// The indices with their elements, in order.
    fn into_pairs(self) -> (r: Vec<(usize, T)>)
        ensures
            r@.len() == self.0@.len(),
            forall|k: int| 0 <= k < r@.len() ==> (#[trigger] r@[k]).0 == k && r@[k].1 == self.0@[k],
    {
        let ghost s = self.0@;
        let _n = self.0.len();
        proof {
            lemma_index_map_len(s);
        }
        let mut v = self.0;
        let mut rev: Vec<(usize, T)> = Vec::new();
        while v.len() > 0
            invariant
                v@.len() <= s.len(),
                v@ == s.take(v@.len() as int),
                rev@.len() == s.len() - v@.len(),
                forall|k: int| 0 <= k < rev@.len() ==> (#[trigger] rev@[k]).0 == s.len() - 1 - k
                    && rev@[k].1 == s[s.len() - 1 - k],
            decreases v@.len(),
        {
            let last = v.len() - 1;
            let x = v.pop().unwrap();
            rev.push((last, x));
            proof {
                assert(v@ =~= s.take(v@.len() as int));
            }
        }
        let mut ret: Vec<(usize, T)> = Vec::new();
        while rev.len() > 0
            invariant
                rev@.len() <= s.len(),
                ret@.len() == s.len() - rev@.len(),
                forall|k: int| 0 <= k < rev@.len() ==> (#[trigger] rev@[k]).0 == s.len() - 1 - k
                    && rev@[k].1 == s[s.len() - 1 - k],
                forall|k: int| 0 <= k < ret@.len() ==> (#[trigger] ret@[k]).0 == k && ret@[k].1 == s[k],
            decreases rev@.len(),
        {
            let x = rev.pop().unwrap();
            ret.push(x);
        }
        proof {
            assert forall|i: int, j: int| 0 <= i < j < ret@.len() implies ret@[i].0 != ret@[j].0 by {
            }
        }
        ret
    }
}

} // verus!
