//! Enumerations of orders and subsets, computed by `itertools`.
use vstd::prelude::*;
use std::ops::Range;

use itertools::{Itertools, Powerset};

verus! {

/// Whether `s` is an ordering of the numbers `0..n`, each exactly once.
pub open spec fn is_permutation(s: Seq<usize>, n: nat) -> bool {
    &&& s.len() == n
    &&& forall|i: int| 0 <= i < s.len() ==> #[trigger] s[i] < n
    &&& forall|i: int, j: int| 0 <= i < j < s.len() ==> s[i] != s[j]
}

/// Whether `a` comes before `b` in lexicographic order: at the first place where they
/// differ, `a` has the smaller number.
pub open spec fn lex_less(a: Seq<usize>, b: Seq<usize>) -> bool {
    exists|i: int| 0 <= i < a.len() && i < b.len() && a.take(i) == b.take(i) && a[i] < b[i]
}

/// Whether the subset `a` comes before `b`: it is smaller, or as large and
/// lexicographically before it.
pub open spec fn subset_before(a: Seq<usize>, b: Seq<usize>) -> bool {
    a.len() < b.len() || (a.len() == b.len() && lex_less(a, b))
}

/// The orderings of `0..n`, in the order in which `itertools` enumerates them.
pub uninterp spec fn permutations_of(n: usize) -> Seq<Seq<usize>>;

/// All orderings of the numbers `0..n`, by `Itertools::permutations` on the range
/// `0..n` with `k = n`, collected.
///
/// The contract names the enumeration ([permutations_of]) and states what the
/// documentation and the source of `itertools` show for a sorted range: every element
/// is an ordering of all `n` numbers, every ordering appears, and they come in
/// lexicographic order (so none comes twice).
#[verifier::external_body]
pub(crate) fn permutations(n: usize) -> (r: Vec<Vec<usize>>)
    ensures
        r.deep_view() == permutations_of(n),
        forall|i: int| 0 <= i < r.deep_view().len() ==> is_permutation(#[trigger] r.deep_view()[i], n as nat),
        forall|s: Seq<usize>| is_permutation(s, n as nat) ==> r.deep_view().contains(s),
        forall|i: int, j: int|
            0 <= i < j < r.deep_view().len() ==> lex_less(#[trigger] r.deep_view()[i], #[trigger] r.deep_view()[j]),
{
    (0..n).permutations(n).collect()
}

#[verifier::external_type_specification]
#[verifier::external_body]
#[verifier::reject_recursive_types(I)]
pub struct ExPowerset<I: Iterator>(Powerset<I>);

/// The subsets, as index lists, that a powerset iterator over a range will still yield,
/// in order.
pub uninterp spec fn powerset_remaining(p: Powerset<Range<usize>>) -> Seq<Seq<usize>>;

/// Whether the indices increase strictly and are all below `len`.
pub open spec fn is_index_subset(s: Seq<usize>, len: nat) -> bool {
    &&& forall|i: int| 0 <= i < s.len() ==> #[trigger] s[i] < len
    &&& forall|i: int, j: int| 0 <= i < j < s.len() ==> s[i] < s[j]
}

/// `Itertools::powerset` on the range `0..len`: an iterator over all subsets of the
/// range, as lists of indices.
///
/// The contract states what `itertools`' source and documentation show: the empty
/// subset comes first, every subset lists its indices in increasing order, every
/// subset comes, and they come by size and, within one size, in lexicographic order
/// (so none comes twice).
#[verifier::external_body]
pub(crate) fn powerset_of_range(len: usize) -> (r: Powerset<Range<usize>>)
    ensures
        powerset_remaining(r).len() > 0,
        powerset_remaining(r)[0] == Seq::<usize>::empty(),
        forall|i: int| 0 <= i < powerset_remaining(r).len() ==> is_index_subset(#[trigger] powerset_remaining(r)[i], len as nat),
        powerset_remaining(r).no_duplicates(),
        forall|s: Seq<usize>| is_index_subset(s, len as nat) ==> powerset_remaining(r).contains(s),
        forall|i: int, j: int|
            0 <= i < j < powerset_remaining(r).len() ==> subset_before(
                #[trigger] powerset_remaining(r)[i],
                #[trigger] powerset_remaining(r)[j],
            ),
{
    (0..len).powerset()
}

/// `Iterator::next` of a powerset iterator: the next subset, [None] at the end.
#[verifier::external_body]
pub(crate) fn powerset_next(p: &mut Powerset<Range<usize>>) -> (r: Option<Vec<usize>>)
    ensures
        powerset_remaining(*old(p)).len() == 0 ==> r is None && powerset_remaining(*final(p)).len() == 0,
        powerset_remaining(*old(p)).len() > 0 ==> (r matches Some(v) && v@ == powerset_remaining(*old(p))[0])
            && powerset_remaining(*final(p)) == powerset_remaining(*old(p)).drop_first(),
{
    p.next()
}

/// `Clone` of a powerset iterator: it will yield the same subsets.
#[verifier::external_body]
pub(crate) fn powerset_clone(p: &Powerset<Range<usize>>) -> (r: Powerset<Range<usize>>)
    ensures
        powerset_remaining(r) == powerset_remaining(*p),
{
    p.clone()
}

/// The elements of `set` whose indices `subset` holds, and the others, each in order.
pub open spec fn split_by<T>(set: Seq<T>, subset: Seq<usize>) -> (Seq<T>, Seq<T>)
    decreases set.len(),
{
    if set.len() == 0 {
        (Seq::empty(), Seq::empty())
    } else {
        let (left, right) = split_by(set.drop_last(), subset);
        if subset.contains((set.len() - 1) as usize) {
            (left.push(set.last()), right)
        } else {
            (left, right.push(set.last()))
        }
    }
}

/// The partitions of a set into two parts: one for each subset of the indices `0..len`
/// that the powerset of the indices yields, the elements at those indices and the others.
#[derive(Debug)]
pub struct Partition<T> {
    /// The set that is partitioned.
    pub set: T,
    iter: Powerset<Range<usize>>,
}

impl<T> Partition<T> {
    /// The set that is partitioned.
    pub closed spec fn elems(&self) -> T {
        self.set
    }

    /// The subsets of indices that are still to come, in order.
    pub closed spec fn remaining(&self) -> Seq<Seq<usize>> {
        powerset_remaining(self.iter)
    }

    // the set that is partitioned
    pub(crate) fn elements(&self) -> (r: &T)
        ensures
            *r == self.elems(),
    {
        &self.set
    }

    /// Whether every subset still to come lists its indices in increasing order, each
    /// once.
    pub open spec fn well_formed(&self) -> bool {
        forall|i: int| 0 <= i < self.remaining().len() ==> #[trigger] increasing(self.remaining()[i])
    }

    /// The partitions of `set` by the subsets of `0..len`; the first to come is the one by
    /// the empty subset.
    pub fn new(set: T, len: usize) -> (r: Self)
        ensures
            r.elems() == set,
            r.well_formed(),
            r.remaining().len() > 0,
            r.remaining()[0] == Seq::<usize>::empty(),
            forall|i: int| 0 <= i < r.remaining().len() ==> is_index_subset(#[trigger] r.remaining()[i], len as nat),
            r.remaining().no_duplicates(),
            forall|s: Seq<usize>| is_index_subset(s, len as nat) ==> r.remaining().contains(s),
            forall|i: int, j: int|
                0 <= i < j < r.remaining().len() ==> subset_before(#[trigger] r.remaining()[i], #[trigger] r.remaining()[j]),
    {
        let r = Self { set, iter: powerset_of_range(len) };
        proof {
            assert forall|i: int| 0 <= i < r.remaining().len() implies #[trigger] increasing(r.remaining()[i]) by {
                assert(is_index_subset(r.remaining()[i], len as nat));
            }
        }
        r
    }
}

/// Whether the indices increase strictly.
pub open spec fn increasing(s: Seq<usize>) -> bool {
    forall|i: int, j: int| 0 <= i < j < s.len() ==> s[i] < s[j]
}

impl<T: Copy> Partition<Vec<T>> {
    /// The next partition: the elements at the indices of the next subset and the others;
    /// [None] when all subsets have come.
    pub fn next(&mut self) -> (r: Option<(Vec<T>, Vec<T>)>)
        requires
            old(self).well_formed(),
        ensures
            final(self).elems() == old(self).elems(),
            final(self).well_formed(),
            old(self).remaining().len() == 0 ==> r is None && final(self).remaining().len() == 0,
            old(self).remaining().len() > 0 ==> (r matches Some((a, b)) && (a@, b@) == split_by(
                old(self).elems()@,
                old(self).remaining()[0],
            )) && final(self).remaining() == old(self).remaining().drop_first(),
    {
        let ghost rem = self.remaining();
        let subset = match powerset_next(&mut self.iter) {
            Some(v) => v,
            None => {
                return None;
            },
        };
        proof {
            assert(increasing(rem[0]));
            assert forall|i: int| 0 <= i < self.remaining().len() implies #[trigger] increasing(self.remaining()[i]) by {
                assert(self.remaining()[i] == rem[i + 1]);
            }
        }
        let mut left: Vec<T> = Vec::new();
        let mut right: Vec<T> = Vec::new();
        let mut k: usize = 0;
        let mut i: usize = 0;
        while i < self.set.len()
            invariant
                i <= self.set@.len(),
                k <= subset@.len(),
                increasing(subset@),
                forall|j: int| 0 <= j < k ==> #[trigger] subset@[j] < i,
                forall|j: int| k <= j < subset@.len() ==> #[trigger] subset@[j] >= i,
                (left@, right@) == split_by(self.set@.take(i as int), subset@),
            decreases self.set@.len() - i,
        {
            let e = self.set[i];
            proof {
                assert(self.set@.take(i + 1).drop_last() =~= self.set@.take(i as int));
                assert(self.set@.take(i + 1).last() == e);
            }
            if k < subset.len() && subset[k] == i {
                left.push(e);
                k += 1;
                proof {
                    assert(subset@.contains(i));
                    assert forall|j: int| k <= j < subset@.len() implies #[trigger] subset@[j] >= i + 1 by {
                        assert(subset@[k - 1] < subset@[j]);
                    }
                }
            } else {
                right.push(e);
                proof {
                    assert(!subset@.contains(i)) by {
                        if subset@.contains(i) {
                            let j = choose|j: int| 0 <= j < subset@.len() && subset@[j] == i;
                            if j >= k {
                                assert(subset@[k as int] < subset@[j] || k == j);
                            }
                        }
                    }
                    assert forall|j: int| k <= j < subset@.len() implies #[trigger] subset@[j] >= i + 1 by {
                        if j > k {
                            assert(subset@[k as int] < subset@[j]);
                        }
                    }
                }
            }
            i += 1;
        }
        proof {
            assert(self.set@.take(self.set@.len() as int) =~= self.set@);
        }
        Some((left, right))
    }
}

impl<T> Default for Partition<Vec<T>> {
    /// The partitions of the empty set: one, by the empty subset.
    fn default() -> (r: Self)
        ensures
            r.elems()@ == Seq::<T>::empty(),
            r.well_formed(),
            r.remaining() == seq![Seq::<usize>::empty()],
    {
        let r = Partition::new(Vec::new(), 0);
        proof {
            assert(r.remaining() =~= seq![Seq::<usize>::empty()]) by {
                assert forall|i: int| 0 <= i < r.remaining().len() implies r.remaining()[i] == Seq::<usize>::empty() by {
                    assert(is_index_subset(r.remaining()[i], 0));
                    if r.remaining()[i].len() > 0 {
                        assert(r.remaining()[i][0] < 0);
                    }
                    assert(r.remaining()[i] =~= Seq::<usize>::empty());
                }
                if r.remaining().len() > 1 {
                    assert(r.remaining()[0] == r.remaining()[1]);
                }
            }
        }
        r
    }
}

impl<T: Clone> Clone for Partition<T> {
    /// A copy that yields the same partitions (of a clone of the set).
    fn clone(&self) -> (r: Self)
        ensures
            r.remaining() == self.remaining(),
            cloned(self.elems(), r.elems()),
    {
        Partition { set: self.set.clone(), iter: powerset_clone(&self.iter) }
    }
}

} // verus!
