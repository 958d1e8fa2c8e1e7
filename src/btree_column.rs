use vstd::prelude::*;
use std::collections::BTreeSet;
use crate::column::{Column, elems, lemma_elems_finite, lemma_elems_take_step, pivot_of, sym_diff};

verus! {

/// Relies on std's `BTreeSet::last`: the greatest element, or `None` when
/// the set is empty.
#[verifier::external_body]
fn btree_last(s: &BTreeSet<usize>) -> (r: Option<usize>)
    ensures
        r == pivot_of(s@),
{
    s.last().copied()
}

/// Relies on std's `BTreeSet::symmetric_difference`: the elements that lie
/// in exactly one of the two sets.
#[verifier::external_body]
fn btree_symmetric_difference(a: &BTreeSet<usize>, b: &BTreeSet<usize>) -> (r: BTreeSet<usize>)
    ensures
        r@ == sym_diff(a@, b@),
{
    a.symmetric_difference(b).cloned().collect()
}

/// A column stored as an ordered tree set of its indices.
pub struct BTreeSetColumn {
    pub col: BTreeSet<usize>,
}

impl BTreeSetColumn {
    /// Builds a column from its indices, in any order.
    pub fn from_sparse_col(sparse_col: Vec<usize>) -> (r: Self)
        ensures
            r.well_formed(),
            r.entries() == elems(sparse_col@),
    {
        let mut col: BTreeSet<usize> = BTreeSet::new();
        let mut i: usize = 0;
        while i < sparse_col.len()
            invariant
                i <= sparse_col@.len(),
                col@ == elems(sparse_col@.take(i as int)),
            decreases sparse_col@.len() - i,
        {
            col.insert(sparse_col[i]);
            proof {
                lemma_elems_take_step(sparse_col@, i as int);
            }
            i += 1;
        }
        assert(sparse_col@.take(i as int) =~= sparse_col@);
        proof {
            lemma_elems_finite(sparse_col@);
        }
        BTreeSetColumn { col }
    }
}

impl Column for BTreeSetColumn {
    open spec fn entries(&self) -> Set<usize> {
        self.col@
    }

    open spec fn well_formed(&self) -> bool {
        self.col@.finite()
    }

    proof fn lemma_finite(&self) {
    }

    fn pivot(&self) -> (r: Option<usize>) {
        btree_last(&self.col)
    }

    fn add_col(&mut self, other: &Self) {
        self.col = btree_symmetric_difference(&self.col, &other.col);
    }
}

} // verus!
