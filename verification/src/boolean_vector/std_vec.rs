//! [BooleanVector] for the plain `Vec<bool>`.
use vstd::prelude::*;

use super::{falses, or_seq, resized, xor_seq, BooleanVector};

verus! {

impl BooleanVector for Vec<bool> {
    open spec fn bools(&self) -> Seq<bool> {
        self@
    }

    fn new() -> (r: Self) {
        Vec::new()
    }

    fn zeros(len: usize) -> (r: Self) {
        let mut r: Vec<bool> = Vec::new();
        let mut i: usize = 0;
        while i < len
            invariant
                i <= len,
                r@ == falses(i as nat),
            decreases len - i,
        {
            r.push(false);
            i += 1;
        }
        r
    }

    fn set(&mut self, idx: usize, flag: bool) {
        self[idx] = flag;
    }

    fn xor_inplace(&mut self, rhs: &Self) {
        let len = self.len();
        let mut i: usize = 0;
        while i < len
            invariant
                len == self@.len(),
                len == rhs@.len(),
                i <= len,
                forall|j: int| 0 <= j < i ==> #[trigger] self@[j] == (old(self)@[j] != rhs@[j]),
                forall|j: int| i <= j < len ==> #[trigger] self@[j] == old(self)@[j],
            decreases len - i,
        {
            let v = self[i] ^ rhs[i];
            self[i] = v;
            i += 1;
        }
        assert(self@ =~= xor_seq(old(self)@, rhs@));
    }

    fn or_inplace(&mut self, rhs: &Self) {
        let len = self.len();
        let mut i: usize = 0;
        while i < len
            invariant
                len == self@.len(),
                len == rhs@.len(),
                i <= len,
                forall|j: int| 0 <= j < i ==> #[trigger] self@[j] == (old(self)@[j] || rhs@[j]),
                forall|j: int| i <= j < len ==> #[trigger] self@[j] == old(self)@[j],
            decreases len - i,
        {
            let a = self[i];
            let b = rhs[i];
            let v = a || b;
            self[i] = v;
            i += 1;
        }
        assert(self@ =~= or_seq(old(self)@, rhs@));
    }

    fn resize(&mut self, len: usize, flag: bool) {
        Vec::resize(self, len, flag);
        proof {
            if len > old(self)@.len() {
                assert(self@ =~= resized(old(self)@, len as nat, flag)) by {
                    assert(self@.subrange(0, old(self)@.len() as int) == old(self)@);
                }
            } else {
                assert(self@ =~= resized(old(self)@, len as nat, flag));
            }
        }
    }

    fn push(&mut self, flag: bool) {
        Vec::push(self, flag);
    }

    fn pop(&mut self) -> (r: Option<bool>) {
        Vec::pop(self)
    }

    fn len(&self) -> (r: usize) {
        Vec::len(self)
    }

    fn get(&self, idx: usize) -> (r: bool) {
        self[idx]
    }
}

} // verus!
