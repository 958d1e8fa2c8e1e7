use vstd::prelude::*;
use bit_set::BitSet;
use crate::column::{Column, elems, lemma_elems_finite, lemma_elems_take_step, pivot_of, sym_diff};

verus! {

/// A `bit_set::BitSet`, held opaquely: its contents are `bitset_elems`.
#[verifier::external_body]
#[derive(Debug, PartialEq)]
pub struct BitSetStore {
    set: BitSet,
}

/// The elements of a bit set.
pub uninterp spec fn bitset_elems(s: BitSetStore) -> Set<usize>;

/// Relies on `bit_set::BitSet::new`: the empty set.
#[verifier::external_body]
fn bitset_new() -> (r: BitSetStore)
    ensures
        bitset_elems(r) == Set::<usize>::empty(),
{
    BitSetStore { set: BitSet::new() }
}

/// Relies on `bit_set::BitSet::insert`: adds `value`, growing the storage as
/// needed (the growth by `value - len + 1` bits must not overflow).
#[verifier::external_body]
fn bitset_insert(s: &mut BitSetStore, value: usize)
    requires
        value < usize::MAX,
    ensures
        bitset_elems(*final(s)) == bitset_elems(*old(s)).insert(value),
{
    s.set.insert(value);
}

/// Relies on `bit_set::BitSet::iter`, which yields every element, and on
/// `Iterator::max`: the greatest element, or `None` for the empty set.
#[verifier::external_body]
fn bitset_max(s: &BitSetStore) -> (r: Option<usize>)
    ensures
        r == pivot_of(bitset_elems(*s)),
{
    s.set.iter().max()
}

/// Relies on `bit_set::BitSet::symmetric_difference_with`: keeps the
/// elements that lie in exactly one of the two sets.
#[verifier::external_body]
fn bitset_symmetric_difference_with(s: &mut BitSetStore, other: &BitSetStore)
    ensures
        bitset_elems(*final(s)) == sym_diff(bitset_elems(*old(s)), bitset_elems(*other)),
{
    s.set.symmetric_difference_with(&other.set);
}

/// A column stored as a compressed bit set of its indices.
#[derive(Debug, PartialEq)]
pub struct BitSetColumn {
    pub col: BitSetStore,
}

impl BitSetColumn {
    /// Builds a column from its indices, in any order.
    pub fn from_sparse_col(sparse_col: Vec<usize>) -> (r: Self)
        requires
            forall|i: int| 0 <= i < sparse_col@.len() ==> sparse_col@[i] < usize::MAX,
        ensures
            r.well_formed(),
            r.entries() == elems(sparse_col@),
    {
        let mut col = bitset_new();
        let mut i: usize = 0;
        while i < sparse_col.len()
            invariant
                i <= sparse_col@.len(),
                forall|j: int| 0 <= j < sparse_col@.len() ==> sparse_col@[j] < usize::MAX,
                bitset_elems(col) == elems(sparse_col@.take(i as int)),
            decreases sparse_col@.len() - i,
        {
            bitset_insert(&mut col, sparse_col[i]);
            proof {
                lemma_elems_take_step(sparse_col@, i as int);
            }
            i += 1;
        }
        assert(sparse_col@.take(i as int) =~= sparse_col@);
        proof {
            lemma_elems_finite(sparse_col@);
        }
        BitSetColumn { col }
    }
}

impl Column for BitSetColumn {
    open spec fn entries(&self) -> Set<usize> {
        bitset_elems(self.col)
    }

    open spec fn well_formed(&self) -> bool {
        bitset_elems(self.col).finite()
    }

    proof fn lemma_finite(&self) {
    }

    fn pivot(&self) -> (r: Option<usize>) {
        bitset_max(&self.col)
    }

    fn add_col(&mut self, other: &Self) {
        bitset_symmetric_difference_with(&mut self.col, &other.col);
    }
}

} // verus!
